use vstd::prelude::*;
use crate::adjacent::{Adjacent, in_grid, neighbors, touches, lemma_neighbors_exact};
use crate::bad_guy::BadGuy;
use crate::field::Field;
use crate::field_gen::count_walk;

verus! {

/// The picture a square shows.
#[derive(Clone, Copy, Debug, PartialEq, Eq, Structural)]
pub enum Tile {
    Bomb,
    BadGuy,
    Numbered(i8),
    Flag,
    Unopened,
}

/// A square board of `dimension` by `dimension` fields, the game's counters,
/// and the bad guy who roams it.
pub struct Board {
    pub dimension: usize,
    pub mines_count: usize,
    pub fields: Vec<Vec<Field>>,
    pub game_over: bool,
    pub seconds_elapsed: i32,
    pub flags_placed: usize,
    pub click_counter: usize,
    pub bad_guy: BadGuy,
}

/// How many of `cells` satisfy `p`.
pub open spec fn count_cells(cells: Seq<(usize, usize)>, p: spec_fn(int, int) -> bool) -> nat
    decreases cells.len(),
{
    if cells.len() == 0 {
        0
    } else {
        count_cells(cells.drop_last(), p) + if p(cells.last().0 as int, cells.last().1 as int) {
            1nat
        } else {
            0nat
        }
    }
}

pub(crate) proof fn lemma_count_cells_same(
    cells: Seq<(usize, usize)>,
    p: spec_fn(int, int) -> bool,
    q: spec_fn(int, int) -> bool,
)
    requires
        forall|i: int|
            0 <= i < cells.len() ==> p(cells[i].0 as int, cells[i].1 as int) == q(
                cells[i].0 as int,
                cells[i].1 as int,
            ),
    ensures
        count_cells(cells, p) == count_cells(cells, q),
    decreases cells.len(),
{
    if cells.len() > 0 {
        let c = cells.drop_last();
        assert forall|i: int| 0 <= i < c.len() implies p(c[i].0 as int, c[i].1 as int) == q(
            c[i].0 as int,
            c[i].1 as int,
        ) by {
            assert(c[i] == cells[i]);
        }
        assert(cells.last() == cells[cells.len() - 1]);
        lemma_count_cells_same(c, p, q);
    }
}

/// A count is zero exactly when no cell counted over satisfies the condition.
pub(crate) proof fn lemma_count_cells_zero(cells: Seq<(usize, usize)>, p: spec_fn(int, int) -> bool)
    ensures
        count_cells(cells, p) == 0 <==> forall|i: int|
            0 <= i < cells.len() ==> !p(#[trigger] cells[i].0 as int, cells[i].1 as int),
    decreases cells.len(),
{
    if cells.len() > 0 {
        let c = cells.drop_last();
        lemma_count_cells_zero(c, p);
        if count_cells(cells, p) == 0 {
            assert forall|i: int| 0 <= i < cells.len() implies !p(
                #[trigger] cells[i].0 as int,
                cells[i].1 as int,
            ) by {
                if i < c.len() {
                    assert(c[i] == cells[i]);
                }
            }
        }
        if forall|i: int| 0 <= i < cells.len() ==> !p(#[trigger] cells[i].0 as int, cells[i].1 as int) {
            assert forall|i: int| 0 <= i < c.len() implies !p(#[trigger] c[i].0 as int, c[i].1 as int) by {
                assert(c[i] == cells[i]);
            }
            assert(cells.last() == cells[cells.len() - 1]);
        }
    }
}

/// `(a, b)` is the cell `(x, y)` or touches it.
pub open spec fn near(a: int, b: int, x: int, y: int) -> bool {
    (a == x && b == y) || touches(a, b, x, y)
}

/// `(a, b)` is kept free of mines when mines are laid with `clear`.
pub open spec fn kept_clear(clear: Option<(usize, usize)>, a: int, b: int) -> bool {
    match clear {
        Some(c) => near(a, b, c.0 as int, c.1 as int),
        None => false,
    }
}

impl Board {
    /// The side of the board.
    pub open spec fn dim(&self) -> int {
        self.dimension as int
    }

    /// The fields, row by row.
    pub open spec fn grid(&self) -> Seq<Seq<Field>> {
        self.fields@.map_values(|r: Vec<Field>| r@)
    }

    /// The field at `(x, y)`.
    pub open spec fn field(&self, x: int, y: int) -> Field {
        self.fields@[x]@[y]
    }

    /// A mine lies at `(x, y)`.
    pub open spec fn is_mine(&self, x: int, y: int) -> bool {
        self.field(x, y).value == -1
    }

    /// The board is square with side `dimension`, small enough for the walks
    /// around a cell, and the bad guy stands on it.
    pub open spec fn wf(&self) -> bool {
        &&& 0 < self.dimension <= 126
        &&& self.fields@.len() == self.dimension
        &&& forall|i: int| 0 <= i < self.dimension ==> (#[trigger] self.fields@[i])@.len() == self.dimension
        &&& (self.bad_guy.position.0 as int) < self.dimension
        &&& (self.bad_guy.position.1 as int) < self.dimension
    }

    /// Which squares hold a mine.
    pub open spec fn mine_at(&self) -> spec_fn(int, int) -> bool {
        |a: int, b: int| self.is_mine(a, b)
    }

    /// Which squares carry a flag.
    pub open spec fn flag_at(&self) -> spec_fn(int, int) -> bool {
        |a: int, b: int| self.field(a, b).is_flagged
    }

    /// The number of mines on the board.
    pub open spec fn mine_total(&self) -> nat {
        count_walk(self.mine_at(), self.dim(), self.dim() * self.dim())
    }

    /// The number of mines around `(x, y)`.
    pub open spec fn adjacent_mines(&self, x: int, y: int) -> nat {
        count_cells(neighbors(x, y, self.dim()), self.mine_at())
    }

    /// The number of flags around `(x, y)`.
    pub open spec fn adjacent_flags(&self, x: int, y: int) -> nat {
        count_cells(neighbors(x, y, self.dim()), self.flag_at())
    }

    /// Every square without a mine shows the number of mines around it.
    pub open spec fn values_consistent(&self) -> bool {
        forall|x: int, y: int|
            in_grid(x, y, self.dim()) && !#[trigger] self.is_mine(x, y) ==> self.field(x, y).value
                == self.adjacent_mines(x, y)
    }

    /// The picture that square `(x, y)` shows.
    pub open spec fn tile_spec(&self, x: int, y: int) -> Tile {
        let f = self.field(x, y);
        if f.value == -1 && (self.game_over || f.is_clicked) && !f.is_flagged {
            Tile::Bomb
        } else if self.bad_guy.position.0 as int == x && self.bad_guy.position.1 as int == y
            && self.bad_guy.is_active {
            Tile::BadGuy
        } else if f.is_clicked {
            Tile::Numbered(f.value)
        } else if f.is_flagged {
            Tile::Flag
        } else {
            Tile::Unopened
        }
    }

    /// The board after square `(x, y)` is repainted: a bad guy standing there
    /// wakes up once the first square has been opened, and sleeps before.
    pub open spec fn repainted(self, x: int, y: int) -> Board {
        if self.bad_guy.position.0 as int == x && self.bad_guy.position.1 as int == y {
            Board {
                bad_guy: BadGuy { is_active: self.click_counter != 0, ..self.bad_guy },
                ..self
            }
        } else {
            self
        }
    }

    /// Puts `f` at `(x, y)`, leaving every other square and everything else as it was.
    pub(crate) fn set_field(&mut self, x: usize, y: usize, f: Field)
        requires
            old(self).wf(),
            x < old(self).dimension,
            y < old(self).dimension,
        ensures
            final(self).wf(),
            final(self).dimension == old(self).dimension,
            final(self).mines_count == old(self).mines_count,
            final(self).game_over == old(self).game_over,
            final(self).seconds_elapsed == old(self).seconds_elapsed,
            final(self).flags_placed == old(self).flags_placed,
            final(self).click_counter == old(self).click_counter,
            final(self).bad_guy == old(self).bad_guy,
            final(self).field(x as int, y as int) == f,
            forall|u: int, v: int|
                0 <= u < old(self).dim() && 0 <= v < old(self).dim() && (u != x || v != y)
                    ==> #[trigger] final(self).field(u, v) == old(self).field(u, v),
    {
        self.fields[x][y] = f;
        proof {
            assert forall|u: int, v: int|
                0 <= u < old(self).dim() && 0 <= v < old(self).dim() && (u != x || v != y)
                    implies #[trigger] self.field(u, v) == old(self).field(u, v) by {
                if u != x {
                    assert(self.fields@[u] == old(self).fields@[u]);
                }
            }
            assert forall|i: int| 0 <= i < self.dimension implies (#[trigger] self.fields@[i])@.len()
                == self.dimension by {
                if i != x {
                    assert(self.fields@[i] == old(self).fields@[i]);
                }
            }
        }
    }

    /// Tells whether a mine lies at `(x, y)`.
    pub(crate) fn is_mine_on_field(&self, x: usize, y: usize) -> (r: bool)
        requires
            self.wf(),
            x < self.dimension,
            y < self.dimension,
        ensures
            r == self.is_mine(x as int, y as int),
    {
        self.fields[x][y].value == -1
    }

    /// The picture that square `(x, y)` shows.
    pub fn tile_at(&self, x: usize, y: usize) -> (t: Tile)
        requires
            self.wf(),
            x < self.dimension,
            y < self.dimension,
        ensures
            t == self.tile_spec(x as int, y as int),
    {
        let field = &self.fields[x][y];
        if field.value == -1 && (self.game_over || field.is_clicked) && !field.is_flagged {
            Tile::Bomb
        } else if x == self.bad_guy.position.0 && y == self.bad_guy.position.1
            && self.bad_guy.is_active {
            Tile::BadGuy
        } else if field.is_clicked {
            Tile::Numbered(field.value)
        } else if field.is_flagged {
            Tile::Flag
        } else {
            Tile::Unopened
        }
    }

    /// Repaints square `(x, y)`: wakes or puts to sleep a bad guy standing
    /// there, and returns the picture the square now shows.
    pub fn change_pixbuf(&mut self, x: usize, y: usize) -> (t: Tile)
        requires
            old(self).wf(),
            x < old(self).dimension,
            y < old(self).dimension,
        ensures
            *final(self) == old(self).repainted(x as int, y as int),
            t == final(self).tile_spec(x as int, y as int),
    {
        if self.bad_guy.position.0 == x && self.bad_guy.position.1 == y {
            self.bad_guy.is_active = self.click_counter != 0;
        }
        self.tile_at(x, y)
    }

    /// Counts the flags (when `flags`) or else the mines around `(x, y)`.
    pub(crate) fn count_adjacent(&self, x: usize, y: usize, flags: bool) -> (n: i8)
        requires
            self.wf(),
            x < self.dimension,
            y < self.dimension,
        ensures
            flags ==> n == self.adjacent_flags(x as int, y as int),
            !flags ==> n == self.adjacent_mines(x as int, y as int),
            0 <= n <= 8,
    {
        let ghost p = if flags {
            self.flag_at()
        } else {
            self.mine_at()
        };
        let ghost all = neighbors(x as int, y as int, self.dim());
        proof {
            lemma_neighbors_exact(x as int, y as int, self.dim());
        }
        let mut adj = Adjacent::new(self.dimension, x, y);
        let mut n: i8 = 0;
        let ghost mut taken: int = 0;
        loop
            invariant
                self.wf(),
                x < self.dimension,
                y < self.dimension,
                adj.wf(),
                adj.dim() == self.dim(),
                p == (if flags {
                    self.flag_at()
                } else {
                    self.mine_at()
                }),
                all == neighbors(x as int, y as int, self.dim()),
                0 <= taken <= all.len(),
                all.len() <= 8,
                forall|i: int| 0 <= i < all.len() ==> {
                    let c = #[trigger] all[i];
                    in_grid(c.0 as int, c.1 as int, self.dim())
                },
                adj.remaining() == all.skip(taken),
                n == count_cells(all.take(taken), p),
                0 <= n <= taken,
            decreases all.len() - taken,
        {
            match adj.next() {
                Some((a, b)) => {
                    assert(all.take(taken + 1).drop_last() == all.take(taken));
                    assert(all[taken] == (a, b));
                    assert(all.take(taken + 1).last() == (a, b));
                    let hit = if flags {
                        self.fields[a][b].is_flagged
                    } else {
                        self.is_mine_on_field(a, b)
                    };
                    if hit {
                        n = n + 1;
                    }
                    proof {
                        taken = taken + 1;
                        assert(adj.remaining() == all.skip(taken));
                    }
                },
                None => {
                    assert(all.skip(taken).len() == 0);
                    assert(all.take(taken) == all);
                    return n;
                },
            }
        }
    }
}

/// What a square shows. A mine without a flag shows a bomb once it is opened
/// or the game is over. Otherwise the awake bad guy is drawn on the square he
/// stands on, opened or not. Otherwise an opened square shows its number, a
/// flagged one its flag, and any other one shows closed.
pub proof fn lemma_tile_shows(b: Board, x: int, y: int)
    ensures
        (b.tile_spec(x, y) == Tile::Bomb) <==> (b.is_mine(x, y) && !b.field(x, y).is_flagged && (
        b.game_over || b.field(x, y).is_clicked)),
        b.tile_spec(x, y) != Tile::Bomb && b.bad_guy.is_active && b.bad_guy.position.0 as int == x
            && b.bad_guy.position.1 as int == y ==> b.tile_spec(x, y) == Tile::BadGuy,
        b.tile_spec(x, y) == Tile::BadGuy ==> b.bad_guy.is_active && b.bad_guy.position.0 as int == x
            && b.bad_guy.position.1 as int == y,
        b.tile_spec(x, y) matches Tile::Numbered(v) ==> b.field(x, y).is_clicked && v == b.field(
            x,
            y,
        ).value,
        b.tile_spec(x, y) == Tile::Flag ==> b.field(x, y).is_flagged && !b.field(x, y).is_clicked,
        b.tile_spec(x, y) == Tile::Unopened ==> !b.field(x, y).is_flagged && !b.field(
            x,
            y,
        ).is_clicked,
{
}

} // verus!
