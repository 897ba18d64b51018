use minesweeper::adjacent::Adjacent;
use minesweeper::field_gen::FieldGenerator;

fn walk(dimension: usize, x: usize, y: usize) -> Vec<(usize, usize)> {
    let mut adj = Adjacent::new(dimension, x, y);
    let mut cells = Vec::new();
    while let Some(c) = adj.next() {
        cells.push(c);
    }
    cells
}

#[test]
fn test_tests() {
    let mut adj = Adjacent::new(4, 1, 1);
    assert_eq!(adj.next(), Some((0, 0)));
}

#[test]
fn adjacent_walks_around_an_inner_cell_in_order() {
    assert_eq!(
        walk(4, 1, 1),
        vec![(0, 0), (1, 0), (2, 0), (0, 1), (2, 1), (0, 2), (1, 2), (2, 2)]
    );
}

#[test]
fn adjacent_skips_cells_off_the_grid() {
    assert_eq!(walk(4, 0, 0), vec![(1, 0), (0, 1), (1, 1)]);
    assert_eq!(walk(4, 3, 3), vec![(2, 2), (3, 2), (2, 3)]);
    assert_eq!(walk(4, 3, 0), vec![(2, 0), (2, 1), (3, 1)]);
    assert_eq!(walk(1, 0, 0), Vec::<(usize, usize)>::new());
}

#[test]
fn adjacent_stays_done() {
    let mut adj = Adjacent::new(2, 0, 0);
    assert_eq!(adj.next(), Some((1, 0)));
    assert_eq!(adj.next(), Some((0, 1)));
    assert_eq!(adj.next(), Some((1, 1)));
    assert_eq!(adj.next(), None);
    assert_eq!(adj.next(), None);
    assert_eq!(adj.coord, (0, 0));
}

#[test]
fn field_generator_walks_rows() {
    let mut g = FieldGenerator::new(2);
    assert_eq!(g.next(), Some((0, 0)));
    assert_eq!(g.next(), Some((0, 1)));
    assert_eq!(g.next(), Some((1, 0)));
    assert_eq!(g.next(), Some((1, 1)));
    assert_eq!(g.next(), None);
    assert_eq!(g.counter, 4);
    assert_eq!(g.next(), None);
}

#[test]
fn field_generator_covers_each_cell_once() {
    let mut g = FieldGenerator::new(5);
    let mut seen = vec![vec![0; 5]; 5];
    let mut n = 0;
    while let Some((x, y)) = g.next() {
        seen[x][y] += 1;
        n += 1;
    }
    assert_eq!(n, 25);
    assert!(seen.iter().all(|r| r.iter().all(|&c| c == 1)));
}

#[test]
fn field_generator_of_empty_grid_yields_nothing() {
    let mut g = FieldGenerator::new(0);
    assert_eq!(g.next(), None);
}

#[test]
fn adjacent_counts_by_position() {
    assert_eq!(walk(4, 0, 0).len(), 3);
    assert_eq!(walk(4, 1, 0).len(), 5);
    assert_eq!(walk(4, 3, 2).len(), 5);
    assert_eq!(walk(4, 2, 2).len(), 8);
    assert_eq!(walk(2, 1, 0).len(), 3);
    assert_eq!(walk(1, 0, 0).len(), 0);
    let cells = walk(5, 2, 2);
    assert!(cells.windows(2).all(|w| (w[0].1, w[0].0) < (w[1].1, w[1].0)));
}

#[test]
fn adjacent_takes_any_centre_as_i8() {
    let adj = Adjacent::new(200, 127, 130);
    assert_eq!(adj.coord, (127, -126));
    let adj = Adjacent::new(4, 2, 3);
    assert_eq!(adj.coord, (2, 3));
}
