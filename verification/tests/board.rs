use minesweeper::bad_guy::BadGuy;
use minesweeper::board::{Board, Tile};
use minesweeper::click::ClickOutcome;
use minesweeper::field::Field;
use minesweeper::game::clock_face;

/// A board without mines whose squares are all closed, with a sleeping bad guy
/// on (0, 0).
fn empty_board(dimension: usize) -> Board {
    Board {
        dimension,
        mines_count: 0,
        fields: vec![vec![Field::new(); dimension]; dimension],
        game_over: false,
        seconds_elapsed: 0,
        flags_placed: 0,
        click_counter: 0,
        bad_guy: BadGuy { position: (0, 0), is_active: false },
    }
}

/// Lays mines on the given squares and numbers the others.
fn board_with_mines(dimension: usize, mines: &[(usize, usize)]) -> Board {
    let mut b = empty_board(dimension);
    b.mines_count = mines.len();
    for &(x, y) in mines {
        b.fields[x][y].value = -1;
    }
    for x in 0..dimension {
        for y in 0..dimension {
            if b.fields[x][y].value != -1 {
                b.fields[x][y].value = count_mines_around(&b, x, y) as i8;
            }
        }
    }
    b
}

fn count_mines_around(b: &Board, x: usize, y: usize) -> usize {
    let mut n = 0;
    for dx in -1i64..=1 {
        for dy in -1i64..=1 {
            if dx == 0 && dy == 0 {
                continue;
            }
            let a = x as i64 + dx;
            let c = y as i64 + dy;
            if a >= 0 && c >= 0 && (a as usize) < b.dimension && (c as usize) < b.dimension {
                if b.fields[a as usize][c as usize].value == -1 {
                    n += 1;
                }
            }
        }
    }
    n
}

fn mines_on(b: &Board) -> usize {
    b.fields.iter().map(|r| r.iter().filter(|f| f.value == -1).count()).sum()
}

fn numbers_consistent(b: &Board) -> bool {
    (0..b.dimension).all(|x| {
        (0..b.dimension).all(|y| b.fields[x][y].value == -1 || b.fields[x][y].value as usize == count_mines_around(b, x, y))
    })
}

#[test]
fn field_starts_closed() {
    let f = Field::new();
    assert!(!f.is_clicked && !f.is_flagged);
    assert_eq!(f.value, 0);
}

#[test]
fn bad_guy_starts_asleep_on_the_grid() {
    for _ in 0..20 {
        let g = BadGuy::new(3);
        assert!(g.position.0 < 3 && g.position.1 < 3);
        assert!(!g.is_active);
    }
    let g = BadGuy::new(1);
    assert_eq!(g.position, (0, 0));
}

#[test]
fn new_board_lays_the_mines_and_numbers_the_squares() {
    for _ in 0..10 {
        let b = Board::new(8, 10);
        assert_eq!(b.fields.len(), 8);
        assert!(b.fields.iter().all(|r| r.len() == 8));
        assert_eq!(mines_on(&b), 10);
        assert!(numbers_consistent(&b));
        assert!(b.fields.iter().all(|r| r.iter().all(|f| !f.is_clicked && !f.is_flagged)));
        assert!(!b.game_over && b.click_counter == 0 && b.flags_placed == 0);
        assert!(!b.bad_guy.is_active);
    }
}

#[test]
fn full_board_is_all_mines() {
    let b = Board::new(3, 9);
    assert_eq!(mines_on(&b), 9);
}

#[test]
fn init_fields_clears_flags_and_relays_mines() {
    let mut b = Board::new(5, 4);
    b.fields[0][0].is_flagged = true;
    b.fields[1][1].is_clicked = true;
    b.click_counter = 3;
    b.init_fields();
    assert_eq!(mines_on(&b), 4);
    assert!(numbers_consistent(&b));
    assert!(b.fields.iter().all(|r| r.iter().all(|f| !f.is_clicked && !f.is_flagged)));
    assert!(b.bad_guy.is_active);
}

#[test]
fn place_mine_counts_only_the_free_squares() {
    let mut b = empty_board(3);
    // every square is free: rank 0 is the first square of the board
    assert_eq!(b.place_mine(0, None), (0, 0));
    assert_eq!(b.fields[0][0].value, -1);
    // (0, 0) holds a mine now, so the free squares in row order are
    // (0, 1), (0, 2), (1, 0), ...: rank 2 is (1, 0), the fourth square of the board
    assert_eq!(b.place_mine(2, None), (1, 0));
    // free squares now: (0, 1), (0, 2), (1, 1), (1, 2), (2, 0), ...: rank 3 is (1, 2)
    assert_eq!(b.place_mine(3, None), (1, 2));
    // keeping the squares around (0, 1) clear leaves row 2 only: rank 0 is (2, 0)
    assert_eq!(b.place_mine(0, Some((0, 1))), (2, 0));
    assert_eq!(mines_on(&b), 4);
}

#[test]
fn tile_shows_the_state_of_a_square() {
    let mut b = board_with_mines(3, &[(2, 2)]);
    assert_eq!(b.tile_at(0, 1), Tile::Unopened);
    b.fields[0][1].is_flagged = true;
    assert_eq!(b.tile_at(0, 1), Tile::Flag);
    b.fields[1][1].is_clicked = true;
    assert_eq!(b.tile_at(1, 1), Tile::Numbered(1));
    assert_eq!(b.tile_at(2, 2), Tile::Unopened);
    b.game_over = true;
    assert_eq!(b.tile_at(2, 2), Tile::Bomb);
    b.game_over = false;
    b.bad_guy.is_active = true;
    assert_eq!(b.tile_at(0, 0), Tile::BadGuy);
}

#[test]
fn repainting_wakes_the_bad_guy_after_the_first_click() {
    let mut b = empty_board(3);
    b.bad_guy.is_active = true;
    assert_eq!(b.change_pixbuf(0, 0), Tile::Unopened);
    assert!(!b.bad_guy.is_active);
    b.click_counter = 1;
    assert_eq!(b.change_pixbuf(0, 0), Tile::BadGuy);
    assert!(b.bad_guy.is_active);
    b.bad_guy.is_active = false;
    assert_eq!(b.change_pixbuf(1, 1), Tile::Unopened);
    assert!(!b.bad_guy.is_active);
}

#[test]
fn clicking_a_zero_opens_its_whole_area_and_wins() {
    let mut b = board_with_mines(3, &[(2, 2)]);
    b.click_counter = 1;
    let r = b.open_field(0, 0);
    assert_eq!(r.outcome, ClickOutcome::Won);
    assert!(b.game_over);
    assert_eq!(r.repaint.len(), 9);
    assert_eq!(r.repaint[0], (0, 0));
    for x in 0..3 {
        for y in 0..3 {
            assert_eq!(b.fields[x][y].is_clicked, (x, y) != (2, 2));
        }
    }
    assert_eq!(b.click_counter, 2);
}

#[test]
fn opening_stops_at_numbers() {
    let mut b = board_with_mines(4, &[(3, 3), (0, 3)]);
    b.click_counter = 1;
    let r = b.open_field(0, 0);
    assert_eq!(r.outcome, ClickOutcome::Continued);
    assert!(b.fields[1][1].is_clicked);
    assert!(b.fields[1][2].is_clicked);
    assert!(!b.fields[0][3].is_clicked);
    assert!(!b.fields[3][3].is_clicked);
    assert!(!b.fields[1][3].is_clicked);
    assert!(!b.game_over);
    // the clicked square is repainted once more at the end
    assert_eq!(r.repaint.last(), Some(&(0, 0)));
    let mut cells = r.repaint.clone();
    cells.sort();
    cells.dedup();
    let opened: usize = b.fields.iter().map(|r| r.iter().filter(|f| f.is_clicked).count()).sum();
    assert_eq!(cells.len(), opened);
    assert!(cells.iter().all(|&(x, y)| b.fields[x][y].is_clicked));
}

#[test]
fn clicking_a_number_opens_only_it() {
    let mut b = board_with_mines(3, &[(2, 2)]);
    b.click_counter = 1;
    let r = b.open_field(1, 1);
    assert_eq!(r.outcome, ClickOutcome::Continued);
    assert_eq!(r.repaint, vec![(1, 1)]);
    assert!(b.fields[1][1].is_clicked);
    assert!(!b.fields[0][0].is_clicked);
}

#[test]
fn clicking_a_mine_ends_the_game() {
    let mut b = board_with_mines(3, &[(2, 2), (0, 2)]);
    b.click_counter = 1;
    let r = b.open_field(2, 2);
    assert_eq!(r.outcome, ClickOutcome::Exploded);
    assert!(b.game_over);
    let mut cells = r.repaint.clone();
    cells.sort();
    assert_eq!(cells, vec![(0, 2), (2, 2)]);
    assert_eq!(b.tile_at(2, 2), Tile::Bomb);
    assert_eq!(b.click_counter, 1);
}

#[test]
fn clicks_after_the_game_or_on_flags_do_nothing() {
    let mut b = board_with_mines(3, &[(2, 2)]);
    b.fields[0][0].is_flagged = true;
    let r = b.open_field(0, 0);
    assert_eq!(r.outcome, ClickOutcome::Ignored);
    assert!(r.repaint.is_empty());
    assert!(!b.fields[0][0].is_clicked);
    b.game_over = true;
    let r = b.open_field(1, 1);
    assert_eq!(r.outcome, ClickOutcome::Ignored);
    assert!(!b.fields[1][1].is_clicked);
}

#[test]
fn a_wrong_flag_sets_off_the_mine_next_to_it() {
    let mut b = board_with_mines(3, &[(2, 2)]);
    b.click_counter = 1;
    b.fields[1][1].is_clicked = true;
    b.fields[0][0].is_flagged = true;
    let r = b.open_field(1, 1);
    assert_eq!(r.outcome, ClickOutcome::WrongFlag);
    assert!(b.game_over);
    assert_eq!(r.repaint, vec![(2, 2)]);
    // the squares before the mine in the walk are opened, flagged or not
    assert!(b.fields[1][0].is_clicked);
    assert!(b.fields[0][0].is_clicked);
    assert!(b.fields[1][2].is_clicked);
    assert!(!b.fields[2][2].is_clicked);
}

#[test]
fn right_flags_open_the_squares_around() {
    let mut b = board_with_mines(3, &[(2, 2)]);
    b.click_counter = 1;
    b.fields[1][1].is_clicked = true;
    b.fields[2][2].is_flagged = true;
    let r = b.open_field(1, 1);
    assert_eq!(r.outcome, ClickOutcome::Won);
    assert!(!b.fields[2][2].is_clicked);
    assert!(b.fields[0][0].is_clicked);
}

#[test]
fn first_click_is_safe() {
    for _ in 0..30 {
        let mut b = Board::new(6, 20);
        let r = Board::click_field(&mut b, 2, 3);
        assert!(r.outcome != ClickOutcome::Exploded && r.outcome != ClickOutcome::WrongFlag);
        assert!(b.fields[2][3].is_clicked);
        assert_eq!(b.fields[2][3].value, 0);
        assert_eq!(mines_on(&b), 20);
        assert!(numbers_consistent(&b));
        assert_eq!(b.click_counter, 1);
    }
}

#[test]
fn first_click_on_a_zero_keeps_the_mines() {
    let mut b = board_with_mines(3, &[(2, 2)]);
    let r = Board::click_field(&mut b, 0, 0);
    assert!(!r.renewed);
    assert_eq!(r.outcome, ClickOutcome::Won);
    assert_eq!(b.fields[2][2].value, -1);
}

#[test]
fn toggling_a_flag_counts_it_and_twice_takes_it_back() {
    let mut b = board_with_mines(3, &[(2, 2)]);
    assert!(b.toggle_flag(2, 2));
    assert!(b.fields[2][2].is_flagged);
    assert_eq!(b.flags_placed, 1);
    assert!(b.toggle_flag(2, 2));
    assert!(!b.fields[2][2].is_flagged);
    assert_eq!(b.flags_placed, 0);
}

#[test]
fn flags_stop_once_more_than_the_mines() {
    let mut b = board_with_mines(3, &[(2, 2)]);
    assert!(b.toggle_flag(0, 0));
    assert!(b.toggle_flag(0, 1));
    assert_eq!(b.flags_placed, 2);
    assert!(!b.toggle_flag(0, 2));
    assert!(!b.toggle_flag(0, 0));
    assert!(b.fields[0][0].is_flagged);
    b.fields[1][1].is_clicked = true;
    b.flags_placed = 0;
    assert!(!b.toggle_flag(1, 1));
}

#[test]
fn bad_guy_moves_to_unflagged_neighbours() {
    let mut b = empty_board(3);
    b.bad_guy.position = (1, 1);
    b.fields[0][0].is_flagged = true;
    b.fields[2][2].is_flagged = true;
    assert_eq!(b.bad_guy_moves(), vec![(1, 0), (2, 0), (0, 1), (2, 1), (0, 2), (1, 2)]);
    for _ in 0..20 {
        b.bad_guy.position = (1, 1);
        b.move_bad_guy();
        let p = b.bad_guy.position;
        assert!(p != (1, 1) && p != (0, 0) && p != (2, 2));
    }
}

#[test]
fn boxed_in_bad_guy_stays() {
    let mut b = empty_board(2);
    b.fields[1][0].is_flagged = true;
    b.fields[0][1].is_flagged = true;
    b.fields[1][1].is_flagged = true;
    assert!(b.bad_guy_moves().is_empty());
    b.move_bad_guy();
    assert_eq!(b.bad_guy.position, (0, 0));
}

#[test]
fn sleeping_bad_guy_takes_no_turn() {
    let mut b = board_with_mines(3, &[(2, 2)]);
    assert!(b.bad_guy_turn().is_none());
    b.bad_guy.is_active = true;
    b.game_over = true;
    assert!(b.bad_guy_turn().is_none());
}

#[test]
fn awake_bad_guy_steps_and_clicks() {
    let mut b = board_with_mines(3, &[(2, 2)]);
    b.click_counter = 1;
    b.fields[2][1].is_flagged = true;
    b.fields[1][2].is_flagged = true;
    b.fields[1][1].is_flagged = true;
    b.bad_guy.is_active = true;
    let t = b.bad_guy_turn().unwrap();
    assert_eq!(t.from, (0, 0));
    assert!(t.to == (1, 0) || t.to == (0, 1));
    assert!(b.fields[t.to.0][t.to.1].is_clicked);
    assert_eq!(b.bad_guy.position, t.to);
}

#[test]
fn new_game_resets_the_counters() {
    let mut b = Board::new(4, 3);
    b.seconds_elapsed = 12;
    b.flags_placed = 2;
    b.game_over = true;
    b.click_counter = 5;
    b.new_game();
    assert_eq!(b.seconds_elapsed, 0);
    assert_eq!(b.flags_placed, 0);
    assert!(!b.game_over);
    assert_eq!(b.click_counter, 0);
    assert_eq!(mines_on(&b), 3);
}

#[test]
fn clock_counts_while_the_game_goes_on() {
    let mut b = empty_board(2);
    assert_eq!(b.tick(), Some(0));
    assert_eq!(b.tick(), Some(1));
    assert_eq!(b.seconds_elapsed, 2);
    b.game_over = true;
    assert_eq!(b.tick(), None);
    assert_eq!(b.seconds_elapsed, 2);
}

#[test]
fn clock_face_splits_the_seconds() {
    assert_eq!(clock_face(75), (0, 1, 15, false));
    assert_eq!(clock_face(5), (0, 0, 5, true));
    assert_eq!(clock_face(700), (1, 11, 40, false));
    assert_eq!(clock_face(-75), (0, -1, -15, true));
}

#[test]
fn clickable_asks_for_room_on_a_first_click() {
    let mines: Vec<(usize, usize)> = vec![(0, 2), (1, 2), (2, 2), (2, 0), (2, 1)];
    let mut b = board_with_mines(3, &mines);
    // (1, 1) shows 5: a first click there needs room for 5 mines off the whole board
    assert!(!b.clickable(1, 1));
    // (0, 0) shows 0: no new mines are laid
    assert!(b.clickable(0, 0));
    b.mines_count = 0;
    assert!(b.clickable(1, 1));
    b.click_counter = 1;
    b.mines_count = 9;
    assert!(b.clickable(1, 1));
    b.click_counter = usize::MAX;
    assert!(!b.clickable(0, 0));
    assert!(b.clickable(2, 2));
}

#[test]
fn roamable_checks_the_squares_around_the_bad_guy() {
    let mut b = board_with_mines(3, &[(2, 2)]);
    b.click_counter = 1;
    assert!(b.roamable());
    b.click_counter = usize::MAX;
    assert!(!b.roamable());
    b.bad_guy.position = (0, 0);
    b.fields[0][0].is_clicked = true;
    b.fields[1][0].is_clicked = true;
    b.fields[0][1].is_clicked = true;
    b.fields[1][1].is_clicked = true;
    assert!(b.roamable());
}

#[test]
fn step_bad_guy_takes_the_rth_move() {
    let mut b = empty_board(3);
    b.bad_guy.position = (1, 1);
    b.fields[1][0].is_flagged = true;
    // moves in walk order: (0, 0), (2, 0), (0, 1), (2, 1), (0, 2), (1, 2), (2, 2)
    b.step_bad_guy(2);
    assert_eq!(b.bad_guy.position, (0, 1));
    b.step_bad_guy(0);
    assert_eq!(b.bad_guy.position, (0, 0));
}

#[test]
fn right_clicks_keep_the_flag_count_true() {
    let mut b = Board::new(4, 3);
    let flags = |b: &Board| b.fields.iter().map(|r| r.iter().filter(|f| f.is_flagged).count()).sum::<usize>();
    for &(x, y) in &[(0, 0), (1, 2), (0, 0), (3, 3), (2, 2), (1, 2)] {
        b.toggle_flag(x, y);
        assert_eq!(b.flags_placed, flags(&b));
    }
}

#[test]
fn walk_bad_guy_leaves_a_sleeping_board_alone() {
    let mut b = board_with_mines(3, &[(2, 2)]);
    let fields = b.fields.clone();
    assert!(b.walk_bad_guy().is_none());
    assert_eq!(b.fields, fields);
    assert_eq!(b.bad_guy.position, (0, 0));
    assert!(!b.bad_guy.is_active);
    b.bad_guy.is_active = true;
    b.game_over = true;
    assert!(b.walk_bad_guy().is_none());
    assert_eq!(b.fields, fields);
    assert_eq!(b.bad_guy.position, (0, 0));
}

#[test]
fn walk_bad_guy_steps_without_clicking() {
    let mut b = board_with_mines(3, &[(2, 2)]);
    b.click_counter = 1;
    b.fields[1][0].is_flagged = true;
    b.fields[1][1].is_flagged = true;
    b.bad_guy.is_active = true;
    let (from, to) = b.walk_bad_guy().unwrap();
    assert_eq!(from, (0, 0));
    assert_eq!(to, (0, 1));
    assert_eq!(b.bad_guy.position, (0, 1));
    assert!(!b.fields[0][1].is_clicked);
    assert_eq!(b.click_counter, 1);
}

#[test]
fn clicks_on_a_true_board_never_open_a_mine() {
    let mines = [(0, 0), (3, 1), (2, 3)];
    for x in 0..4 {
        for y in 0..4 {
            let mut b = board_with_mines(4, &mines);
            b.click_counter = 1;
            let before_counter = b.click_counter;
            Board::click_field(&mut b, x, y);
            for &(mx, my) in &mines {
                assert!(!b.fields[mx][my].is_clicked || (mx, my) == (x, y));
            }
            assert!(b.click_counter >= before_counter);
        }
    }
}
