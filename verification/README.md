# minesweeper

The rules of a minesweeper game with a roaming bad guy, as a Verus library.

- `src/` is the verified library: the walk around a square (`adjacent`), the
  row-by-row walk of the board (`field_gen`), the board and its pictures
  (`board`), laying and numbering the mines (`mines`), clicking and the opening
  of squares (`click`), flags (`flags`), the bad guy's moves (`roam`), and the
  clock and new games (`game`). Random draws go through `rand`.
- `app/` is the GTK program around it: windows, buttons, icons, timers.
- `tests/` exercises the library.
