use vstd::prelude::*;
use crate::adjacent::{in_grid, neighbors, lemma_neighbors_exact};
use crate::bad_guy::BadGuy;
use crate::board::{Board, kept_clear, lemma_count_cells_same};
use crate::field::Field;
use crate::field_gen::{
    FieldGenerator,
    cell_of,
    count_walk,
    index_of,
    lemma_walk_covers_grid,
    walk_fits_grid,
    lemma_count_walk_change,
    lemma_count_walk_same,
    lemma_count_walk_split,
    lemma_count_walk_full,
    lemma_count_walk_empty,
};
use crate::random::{Draw, random_below};

verus! {

/// A closed, unflagged square without a mine, showing 0.
pub open spec fn blank_field() -> Field {
    Field { is_clicked: false, is_flagged: false, value: 0 }
}

/// The squares where a mine may still go: no mine yet, and not kept clear.
pub open spec fn free_at(board: Board, clear: Option<(usize, usize)>) -> spec_fn(int, int) -> bool {
    |a: int, b: int| !board.is_mine(a, b) && !kept_clear(clear, a, b)
}

/// The squares still free for a mine once the mines of `placed` lie on a board
/// that had none: not kept clear and not among `placed`.
pub open spec fn free_after(
    clear: Option<(usize, usize)>,
    placed: Seq<(usize, usize)>,
) -> spec_fn(int, int) -> bool {
    |a: int, b: int| !kept_clear(clear, a, b) && !placed.contains((a as usize, b as usize))
}

/// The `k`-th of `cells` lies on the grid of side `dim`, free once the mines
/// before it lie (not kept clear, not among them), and is the free square whose
/// rank in the row-by-row walk is the `k`-th of `draws`, each drawn below the
/// number of free squares at that point.
pub(crate) open spec fn laid_by_draws(
    clear: Option<(usize, usize)>,
    dim: int,
    draws: Seq<Draw>,
    cells: Seq<(usize, usize)>,
) -> bool {
    &&& draws.len() == cells.len()
    &&& forall|k: int|
        0 <= k < cells.len() ==> {
            let free = free_after(clear, cells.take(k));
            let c = #[trigger] cells[k];
            &&& draws[k].range() == count_walk(free, dim, dim * dim)
            &&& in_grid(c.0 as int, c.1 as int, dim)
            &&& free(c.0 as int, c.1 as int)
            &&& count_walk(free, dim, index_of(c.0 as int, c.1 as int, dim)) == draws[k].drawn()
        }
}

/// The squares that are not kept clear.
pub open spec fn open_to_mines(clear: Option<(usize, usize)>) -> spec_fn(int, int) -> bool {
    |a: int, b: int| !kept_clear(clear, a, b)
}

/// The number of squares of a board of side `dim` that are not kept clear.
pub open spec fn room_for_mines(clear: Option<(usize, usize)>, dim: int) -> nat {
    count_walk(open_to_mines(clear), dim, dim * dim)
}

/// The square of a side the board allows fits easily in `usize`.
pub proof fn lemma_square_fits(dim: int)
    requires
        0 < dim <= 126,
    ensures
        dim * dim <= 126 * 126,
        dim * dim <= usize::MAX,
        dim <= dim * dim,
{
    assert(dim * dim <= 126 * 126) by (nonlinear_arith)
        requires
            0 < dim <= 126,
    ;
    assert(dim <= dim * dim) by (nonlinear_arith)
        requires
            0 < dim,
    ;
}

/// Tells whether `(a, b)` is kept clear.
fn is_kept_clear(clear: Option<(usize, usize)>, a: usize, b: usize) -> (r: bool)
    requires
        a < 200,
        b < 200,
        clear matches Some(c) ==> c.0 < 200 && c.1 < 200,
    ensures
        r == kept_clear(clear, a as int, b as int),
{
    match clear {
        None => false,
        Some((cx, cy)) => a + 1 >= cx && a <= cx + 1 && b + 1 >= cy && b <= cy + 1,
    }
}

/// Two boards have the same mines on a grid of side `dim`.
pub open spec fn same_mines(b1: Board, b2: Board) -> bool {
    forall|x: int, y: int| in_grid(x, y, b1.dim()) ==> #[trigger] b1.is_mine(x, y) == b2.is_mine(x, y)
}

/// The mines are the same on both boards, so each square has as many around it.
proof fn lemma_adjacent_mines_same(b1: Board, b2: Board, x: int, y: int)
    requires
        b1.dim() == b2.dim(),
        b1.dim() <= 126,
        same_mines(b1, b2),
    ensures
        b1.adjacent_mines(x, y) == b2.adjacent_mines(x, y),
{
    lemma_neighbors_exact(x, y, b1.dim());
    let all = neighbors(x, y, b1.dim());
    assert forall|i: int| 0 <= i < all.len() implies b1.mine_at()(all[i].0 as int, all[i].1 as int)
        == b2.mine_at()(all[i].0 as int, all[i].1 as int) by {
        let c = all[i];
        assert(in_grid(c.0 as int, c.1 as int, b1.dim()));
        assert(b1.is_mine(c.0 as int, c.1 as int) == b2.is_mine(c.0 as int, c.1 as int));
    }
    lemma_count_cells_same(all, b1.mine_at(), b2.mine_at());
}

impl Board {
    /// Everything but the fields is the same on both boards.
    pub open spec fn same_but_fields(self, other: Board) -> bool {
        &&& self.dimension == other.dimension
        &&& self.mines_count == other.mines_count
        &&& self.game_over == other.game_over
        &&& self.seconds_elapsed == other.seconds_elapsed
        &&& self.flags_placed == other.flags_placed
        &&& self.click_counter == other.click_counter
        &&& self.bad_guy == other.bad_guy
    }

    /// Every square is closed, unflagged, without a mine, and shows 0.
    pub open spec fn blank(&self) -> bool {
        forall|x: int, y: int| in_grid(x, y, self.dim()) ==> #[trigger] self.field(x, y) == blank_field()
    }

    /// The mines have just been laid: every square closed and unflagged,
    /// `mines_count` mines, none on a square kept clear, and every other square
    /// showing the number of mines around it.
    pub open spec fn freshly_laid(&self, clear: Option<(usize, usize)>) -> bool {
        &&& forall|x: int, y: int|
            in_grid(x, y, self.dim()) ==> !(#[trigger] self.field(x, y)).is_clicked && !self.field(
                x,
                y,
            ).is_flagged
        &&& self.mine_total() == self.mines_count
        &&& forall|x: int, y: int|
            in_grid(x, y, self.dim()) && kept_clear(clear, x, y) ==> !#[trigger] self.is_mine(x, y)
        &&& self.values_consistent()
    }

    /// Fills the board with closed, unflagged squares showing 0.
    fn create_fields(&mut self)
        requires
            0 < old(self).dimension <= 126,
        ensures
            final(self).same_but_fields(*old(self)),
            final(self).fields@.len() == final(self).dimension,
            forall|i: int|
                0 <= i < final(self).dimension ==> (#[trigger] final(self).fields@[i])@.len()
                    == final(self).dimension,
            final(self).blank(),
    {
        let mut fields: Vec<Vec<Field>> = Vec::new();
        for x in 0..self.dimension
            invariant
                fields@.len() == x,
                forall|i: int| 0 <= i < x ==> (#[trigger] fields@[i])@.len() == self.dimension,
                forall|i: int, j: int|
                    0 <= i < x && 0 <= j < self.dimension ==> #[trigger] fields@[i]@[j]
                        == blank_field(),
        {
            let mut row: Vec<Field> = Vec::new();
            for _y in 0..self.dimension
                invariant
                    row@.len() == _y,
                    forall|j: int| 0 <= j < _y ==> #[trigger] row@[j] == blank_field(),
            {
                row.push(Field::new());
            }
            fields.push(row);
        }
        self.fields = fields;
    }

    /// Closes, unflags and empties every square, repainting each: a bad guy wakes
    /// up if a square has been opened, and sleeps otherwise.
    fn clear_fields(&mut self)
        requires
            old(self).wf(),
        ensures
            final(self).wf(),
            final(self).blank(),
            final(self).same_but_fields(
                Board {
                    bad_guy: BadGuy { is_active: old(self).click_counter != 0, ..old(self).bad_guy },
                    ..*old(self)
                },
            ),
    {
        let ghost dim = self.dim();
        let ghost pos = index_of(
            self.bad_guy.position.0 as int,
            self.bad_guy.position.1 as int,
            dim,
        );
        proof {
            lemma_square_fits(dim);
            lemma_walk_covers_grid(dim);
        }
        let mut gen = FieldGenerator::new(self.dimension);
        loop
            invariant
                self.wf(),
                dim == self.dim(),
                gen.dim() == self.dimension,
                gen.step() <= dim * dim,
                dim * dim <= usize::MAX,
                0 <= pos < dim * dim,
                forall|k: int|
                    0 <= k < gen.step() ==> #[trigger] self.field(
                        cell_of(k, dim).0 as int,
                        cell_of(k, dim).1 as int,
                    ) == blank_field(),
                self.dimension == old(self).dimension,
                self.mines_count == old(self).mines_count,
                self.game_over == old(self).game_over,
                self.seconds_elapsed == old(self).seconds_elapsed,
                self.flags_placed == old(self).flags_placed,
                self.click_counter == old(self).click_counter,
                self.bad_guy.position == old(self).bad_guy.position,
                pos == index_of(
                    self.bad_guy.position.0 as int,
                    self.bad_guy.position.1 as int,
                    dim,
                ),
                pos < gen.step() ==> self.bad_guy.is_active == (self.click_counter != 0),
                pos >= gen.step() ==> self.bad_guy.is_active == old(self).bad_guy.is_active,
                walk_fits_grid(dim),
            decreases dim * dim - gen.step(),
        {
            let ghost k = gen.step() as int;
            match gen.next() {
                Some((x, y)) => {
                    assert(cell_of(k, dim) == (x, y));
                    let ghost before = *self;
                    self.set_field(x, y, Field { is_clicked: false, is_flagged: false, value: 0 });
                    let ghost mid = *self;
                    self.change_pixbuf(x, y);
                    proof {
                        assert forall|j: int| 0 <= j < k + 1 implies #[trigger] self.field(
                            cell_of(j, dim).0 as int,
                            cell_of(j, dim).1 as int,
                        ) == blank_field() by {
                            let c = cell_of(j, dim);
                            assert((c.0 as int) < dim && (c.1 as int) < dim);
                            if c.0 != x || c.1 != y {
                                assert(mid.field(c.0 as int, c.1 as int) == before.field(
                                    c.0 as int,
                                    c.1 as int,
                                ));
                                assert(self.field(c.0 as int, c.1 as int) == before.field(
                                    c.0 as int,
                                    c.1 as int,
                                ));
                            }
                        }
                        if pos == k {
                            assert(cell_of(pos, dim) == (x, y));
                        } else {
                            assert(self.bad_guy.position.0 != x || self.bad_guy.position.1 != y);
                        }
                    }
                },
                None => {
                    assert forall|x: int, y: int| in_grid(x, y, dim) implies #[trigger] self.field(
                        x,
                        y,
                    ) == blank_field() by {
                        let k = index_of(x, y, dim);
                        assert(cell_of(k, dim) == (x as usize, y as usize));
                    }
                    return;
                },
            }
        }
    }

    /// Counts the squares where a mine may still go.
    fn count_free(&self, clear: Option<(usize, usize)>) -> (n: usize)
        requires
            self.wf(),
            clear matches Some(c) ==> (c.0 as int) < self.dim() && (c.1 as int) < self.dim(),
        ensures
            n == count_walk(free_at(*self, clear), self.dim(), self.dim() * self.dim()),
    {
        let ghost dim = self.dim();
        let ghost p = free_at(*self, clear);
        proof {
            lemma_square_fits(dim);
            lemma_walk_covers_grid(dim);
        }
        let mut gen = FieldGenerator::new(self.dimension);
        let mut n: usize = 0;
        loop
            invariant
                self.wf(),
                dim == self.dim(),
                p == free_at(*self, clear),
                clear matches Some(c) ==> (c.0 as int) < dim && (c.1 as int) < dim,
                gen.dim() == self.dimension,
                gen.step() <= dim * dim,
                dim * dim <= 126 * 126,
                n == count_walk(p, dim, gen.step() as int),
                n <= gen.step(),
                walk_fits_grid(dim),
            decreases dim * dim - gen.step(),
        {
            let ghost k = gen.step() as int;
            match gen.next() {
                Some((x, y)) => {
                    proof {
                        vstd::arithmetic::div_mod::lemma_mod_pos_bound(k, dim);
                        vstd::arithmetic::div_mod::lemma_div_pos_is_pos(k, dim);
                        assert(x as int == k / dim && y as int == k % dim);
                    }
                    if !self.is_mine_on_field(x, y) && !is_kept_clear(clear, x, y) {
                        n = n + 1;
                    }
                },
                None => {
                    return n;
                },
            }
        }
    }

    /// Lays a mine on the square where, walking the board row by row, the
    /// `r`-th free square lies (counting from 0): free squares hold no mine and
    /// are not kept clear. Returns the square.
    pub fn place_mine(&mut self, r: usize, clear: Option<(usize, usize)>) -> (cell: (usize, usize))
        requires
            old(self).wf(),
            clear matches Some(c) ==> (c.0 as int) < old(self).dim() && (c.1 as int) < old(
                self,
            ).dim(),
            r < count_walk(free_at(*old(self), clear), old(self).dim(), old(self).dim() * old(self).dim()),
        ensures
            final(self).wf(),
            final(self).same_but_fields(*old(self)),
            in_grid(cell.0 as int, cell.1 as int, old(self).dim()),
            free_at(*old(self), clear)(cell.0 as int, cell.1 as int),
            count_walk(
                free_at(*old(self), clear),
                old(self).dim(),
                index_of(cell.0 as int, cell.1 as int, old(self).dim()),
            ) == r,
            final(self).field(cell.0 as int, cell.1 as int) == (Field {
                value: -1i8,
                ..old(self).field(cell.0 as int, cell.1 as int)
            }),
            forall|u: int, v: int|
                in_grid(u, v, old(self).dim()) && (u != cell.0 || v != cell.1)
                    ==> #[trigger] final(self).field(u, v) == old(self).field(u, v),
    {
        let ghost dim = self.dim();
        let ghost p = free_at(*self, clear);
        proof {
            lemma_square_fits(dim);
            lemma_walk_covers_grid(dim);
        }
        let mut gen = FieldGenerator::new(self.dimension);
        let mut seen: usize = 0;
        loop
            invariant
                *self == *old(self),
                self.wf(),
                dim == self.dim(),
                p == free_at(*self, clear),
                clear matches Some(c) ==> (c.0 as int) < dim && (c.1 as int) < dim,
                r < count_walk(p, dim, dim * dim),
                gen.dim() == self.dimension,
                gen.step() <= dim * dim,
                dim * dim <= 126 * 126,
                seen == count_walk(p, dim, gen.step() as int),
                seen <= r,
                walk_fits_grid(dim),
            decreases dim * dim - gen.step(),
        {
            let ghost k = gen.step() as int;
            match gen.next() {
                Some((x, y)) => {
                    proof {
                        vstd::arithmetic::div_mod::lemma_mod_pos_bound(k, dim);
                        vstd::arithmetic::div_mod::lemma_div_pos_is_pos(k, dim);
                        assert(x as int == k / dim && y as int == k % dim);
                        assert(index_of(x as int, y as int, dim) == k);
                    }
                    if !self.is_mine_on_field(x, y) && !is_kept_clear(clear, x, y) {
                        if seen == r {
                            let f = self.fields[x][y];
                            self.set_field(x, y, Field { value: -1, ..f });
                            return (x, y);
                        }
                        seen = seen + 1;
                    }
                },
                None => {
                    assert(false);
                    return (0, 0);
                },
            }
        }
    }

    /// Lays `mines_count` mines on squares drawn at random among those not kept
    /// clear, each draw uniform over the free squares. Returns the draws and
    /// the squares the mines went on, in order: the `k`-th mine lies on the
    /// free square (not kept clear, no mine yet) whose rank in the walk is the
    /// `k`-th draw, made below the number of free squares at that point.
    fn lay_mines(&mut self, clear: Option<(usize, usize)>) -> (laid: (Vec<Draw>, Vec<(usize, usize)>))
        requires
            old(self).wf(),
            clear matches Some(c) ==> (c.0 as int) < old(self).dim() && (c.1 as int) < old(
                self,
            ).dim(),
            forall|x: int, y: int| in_grid(x, y, old(self).dim()) ==> !#[trigger] old(self).is_mine(x, y),
            old(self).mines_count <= room_for_mines(clear, old(self).dim()),
        ensures
            final(self).wf(),
            final(self).same_but_fields(*old(self)),
            final(self).mine_total() == final(self).mines_count,
            forall|x: int, y: int|
                in_grid(x, y, old(self).dim()) ==> {
                    &&& kept_clear(clear, x, y) ==> !final(self).is_mine(x, y)
                    &&& (#[trigger] final(self).field(x, y)).is_clicked == old(self).field(x, y).is_clicked
                    &&& final(self).field(x, y).is_flagged == old(self).field(x, y).is_flagged
                    &&& !final(self).is_mine(x, y) ==> final(self).field(x, y) == old(self).field(x, y)
                },
            laid.0@.len() == old(self).mines_count,
            laid.1@.len() == old(self).mines_count,
            laid_by_draws(clear, old(self).dim(), laid.0@, laid.1@),
            forall|x: int, y: int|
                in_grid(x, y, old(self).dim()) ==> (#[trigger] final(self).is_mine(x, y)
                    <==> laid.1@.contains((x as usize, y as usize))),
    {
        let ghost dim = self.dim();
        proof {
            lemma_square_fits(dim);
            lemma_count_walk_empty(self.mine_at(), dim, dim * dim);
        }
        let mut draws: Vec<Draw> = Vec::new();
        let mut cells: Vec<(usize, usize)> = Vec::new();
        let mut mines: usize = 0;
        while mines != self.mines_count
            invariant
                self.wf(),
                dim == self.dim(),
                dim * dim <= 126 * 126,
                self.same_but_fields(*old(self)),
                clear matches Some(c) ==> (c.0 as int) < dim && (c.1 as int) < dim,
                self.mines_count <= room_for_mines(clear, dim),
                mines <= self.mines_count,
                self.mine_total() == mines,
                forall|x: int, y: int|
                    in_grid(x, y, dim) ==> {
                        &&& kept_clear(clear, x, y) ==> !self.is_mine(x, y)
                        &&& (#[trigger] self.field(x, y)).is_clicked == old(self).field(x, y).is_clicked
                        &&& self.field(x, y).is_flagged == old(self).field(x, y).is_flagged
                        &&& !self.is_mine(x, y) ==> self.field(x, y) == old(self).field(x, y)
                    },
                cells@.len() == mines,
                laid_by_draws(clear, dim, draws@, cells@),
                forall|x: int, y: int|
                    in_grid(x, y, dim) ==> (#[trigger] self.is_mine(x, y) <==> cells@.contains(
                        (x as usize, y as usize),
                    )),
            decreases self.mines_count - mines,
        {
            let free = self.count_free(clear);
            proof {
                let room = open_to_mines(clear);
                let mine = self.mine_at();
                lemma_count_walk_split(room, mine, dim, dim * dim);
                lemma_count_walk_same(
                    |u: int, v: int| room(u, v) && mine(u, v),
                    mine,
                    dim,
                    dim * dim,
                );
                lemma_count_walk_same(
                    |u: int, v: int| room(u, v) && !mine(u, v),
                    free_at(*self, clear),
                    dim,
                    dim * dim,
                );
            }
            let d = random_below(free);
            let r = d.value();
            let ghost before = *self;
            let ghost placed = cells@;
            let ghost drawn = draws@;
            let cell = self.place_mine(r, clear);
            draws.push(d);
            cells.push(cell);
            proof {
                lemma_count_walk_change(
                    before.mine_at(),
                    self.mine_at(),
                    dim,
                    dim * dim,
                    cell.0 as int,
                    cell.1 as int,
                );
                lemma_walk_covers_grid(dim);
                let fa = free_at(before, clear);
                let fp = free_after(clear, placed);
                assert forall|u: int, v: int| 0 <= u < dim && 0 <= v < dim implies #[trigger] fa(u, v)
                    == fp(u, v) by {
                    assert(before.is_mine(u, v) <==> placed.contains((u as usize, v as usize)));
                }
                lemma_count_walk_same(fa, fp, dim, dim * dim);
                lemma_count_walk_same(fa, fp, dim, index_of(cell.0 as int, cell.1 as int, dim));
                assert(cells@.take(mines as int) =~= placed);
                assert forall|k: int| 0 <= k < mines implies #[trigger] cells@.take(k) == placed.take(k)
                    && cells@[k] == placed[k] && draws@[k] == drawn[k] by {
                    assert(cells@.take(k) =~= placed.take(k));
                }
                assert forall|k: int|
                    0 <= k < mines + 1 implies {
                        let free = free_after(clear, cells@.take(k));
                        let c = #[trigger] cells@[k];
                        &&& draws@[k].range() == count_walk(free, dim, dim * dim)
                        &&& in_grid(c.0 as int, c.1 as int, dim)
                        &&& free(c.0 as int, c.1 as int)
                        &&& count_walk(free, dim, index_of(c.0 as int, c.1 as int, dim))
                            == draws@[k].drawn()
                    } by {
                    if k < mines {
                        assert(cells@.take(k) == placed.take(k));
                        assert(cells@[k] == placed[k]);
                    } else {
                        assert(cells@.take(k) == placed);
                        assert(cells@[k] == cell);
                        assert(draws@[k] == d);
                    }
                }
                assert forall|x: int, y: int| in_grid(x, y, dim) implies (#[trigger] self.is_mine(x, y)
                    <==> cells@.contains((x as usize, y as usize))) by {
                    let p = (x as usize, y as usize);
                    if x == cell.0 && y == cell.1 {
                        assert(cells@[mines as int] == p);
                    } else {
                        assert(self.field(x, y) == before.field(x, y));
                        if placed.contains(p) {
                            let i = choose|i: int| 0 <= i < placed.len() && placed[i] == p;
                            assert(cells@[i] == p);
                        }
                        if cells@.contains(p) {
                            let i = choose|i: int| 0 <= i < cells@.len() && cells@[i] == p;
                            assert(i < placed.len());
                            assert(placed[i] == p);
                        }
                    }
                }
            }
            mines = mines + 1;
        }
        assert(dim == old(self).dim());
        (draws, cells)
    }

    /// Shows on every square without a mine the number of mines around it.
    fn fill_values(&mut self)
        requires
            old(self).wf(),
        ensures
            final(self).wf(),
            final(self).same_but_fields(*old(self)),
            same_mines(*old(self), *final(self)),
            forall|x: int, y: int|
                in_grid(x, y, old(self).dim()) ==> {
                    &&& (#[trigger] final(self).field(x, y)).is_clicked == old(self).field(x, y).is_clicked
                    &&& final(self).field(x, y).is_flagged == old(self).field(x, y).is_flagged
                    &&& old(self).is_mine(x, y) ==> final(self).field(x, y) == old(self).field(x, y)
                },
            final(self).values_consistent(),
    {
        let ghost dim = self.dim();
        proof {
            lemma_square_fits(dim);
            lemma_walk_covers_grid(dim);
        }
        let mut gen = FieldGenerator::new(self.dimension);
        loop
            invariant
                self.wf(),
                dim == self.dim(),
                dim * dim <= 126 * 126,
                self.same_but_fields(*old(self)),
                same_mines(*old(self), *self),
                gen.dim() == self.dimension,
                gen.step() <= dim * dim,
                forall|x: int, y: int|
                    in_grid(x, y, dim) ==> {
                        &&& (#[trigger] self.field(x, y)).is_clicked == old(self).field(x, y).is_clicked
                        &&& self.field(x, y).is_flagged == old(self).field(x, y).is_flagged
                        &&& old(self).is_mine(x, y) ==> self.field(x, y) == old(self).field(x, y)
                    },
                forall|k: int|
                    0 <= k < gen.step() ==> {
                        let c = #[trigger] cell_of(k, dim);
                        !self.is_mine(c.0 as int, c.1 as int) ==> self.field(c.0 as int, c.1 as int).value
                            == self.adjacent_mines(c.0 as int, c.1 as int)
                    },
                walk_fits_grid(dim),
            decreases dim * dim - gen.step(),
        {
            let ghost k = gen.step() as int;
            match gen.next() {
                Some((x, y)) => {
                    assert(cell_of(k, dim) == (x, y));
                    if !self.is_mine_on_field(x, y) {
                        let n = self.count_adjacent(x, y, false);
                        let f = self.fields[x][y];
                        let ghost before = *self;
                        self.set_field(x, y, Field { value: n, ..f });
                        proof {
                            assert(same_mines(before, *self));
                            assert forall|j: int| 0 <= j < k + 1 implies {
                                let c = #[trigger] cell_of(j, dim);
                                !self.is_mine(c.0 as int, c.1 as int) ==> self.field(
                                    c.0 as int,
                                    c.1 as int,
                                ).value == self.adjacent_mines(c.0 as int, c.1 as int)
                            } by {
                                let c = cell_of(j, dim);
                                lemma_adjacent_mines_same(before, *self, c.0 as int, c.1 as int);
                            }
                        }
                    }
                },
                None => {
                    assert forall|x: int, y: int|
                        in_grid(x, y, dim) && !#[trigger] self.is_mine(x, y) implies self.field(
                        x,
                        y,
                    ).value == self.adjacent_mines(x, y) by {
                        assert(cell_of(index_of(x, y, dim), dim) == (x as usize, y as usize));
                    }
                    return;
                },
            }
        }
    }

    /// Clears every square, then lays `mines_count` mines at random off the
    /// squares kept clear and numbers the others.
    pub(crate) fn renew(&mut self, clear: Option<(usize, usize)>)
        requires
            old(self).wf(),
            clear matches Some(c) ==> (c.0 as int) < old(self).dim() && (c.1 as int) < old(
                self,
            ).dim(),
            old(self).mines_count <= room_for_mines(clear, old(self).dim()),
        ensures
            final(self).wf(),
            final(self).freshly_laid(clear),
            final(self).same_but_fields(
                Board {
                    bad_guy: BadGuy { is_active: old(self).click_counter != 0, ..old(self).bad_guy },
                    ..*old(self)
                },
            ),
    {
        let ghost dim = self.dim();
        self.clear_fields();
        proof {
            assert forall|x: int, y: int| in_grid(x, y, dim) implies !#[trigger] self.is_mine(x, y) by {
                assert(self.field(x, y) == blank_field());
            }
        }
        self.lay_mines(clear);
        let ghost laid = *self;
        self.fill_values();
        proof {
            lemma_square_fits(dim);
            lemma_count_walk_same(laid.mine_at(), self.mine_at(), dim, dim * dim);
            assert forall|x: int, y: int| in_grid(x, y, dim) implies !(#[trigger] self.field(x, y)).is_clicked
                && !self.field(x, y).is_flagged by {
                assert(laid.field(x, y).is_clicked == self.field(x, y).is_clicked);
            }
            assert forall|x: int, y: int|
                in_grid(x, y, dim) && kept_clear(clear, x, y) implies !#[trigger] self.is_mine(x, y) by {
                assert(laid.is_mine(x, y) == self.is_mine(x, y));
            }
        }
    }

    /// Clears every square (repainting it), then lays `mines_count` mines on
    /// random squares and numbers the others.
    pub fn init_fields(&mut self)
        requires
            old(self).wf(),
            old(self).mines_count <= old(self).dimension * old(self).dimension,
        ensures
            final(self).wf(),
            final(self).freshly_laid(None),
            final(self).same_but_fields(
                Board {
                    bad_guy: BadGuy { is_active: old(self).click_counter != 0, ..old(self).bad_guy },
                    ..*old(self)
                },
            ),
    {
        proof {
            let dim = self.dim();
            lemma_square_fits(dim);
            lemma_count_walk_full(open_to_mines(None), dim, dim * dim);
        }
        self.renew(None);
    }

    /// A board of `dimension` by `dimension` squares with `mines_count` mines laid
    /// at random, a sleeping bad guy on a random square, and every counter at 0.
    pub fn new(dimension: usize, mines_count: usize) -> (board: Board)
        requires
            0 < dimension <= 126,
            mines_count <= dimension * dimension,
        ensures
            board.wf(),
            board.dimension == dimension,
            board.mines_count == mines_count,
            board.freshly_laid(None),
            !board.game_over,
            board.seconds_elapsed == 0,
            board.flags_placed == 0,
            board.flags_placed == board.flag_total(),
            board.click_counter == 0,
            !board.bad_guy.is_active,
    {
        let mut board = Board {
            dimension,
            mines_count,
            fields: Vec::new(),
            game_over: false,
            seconds_elapsed: 0,
            flags_placed: 0,
            click_counter: 0,
            bad_guy: BadGuy::new(dimension as i8),
        };
        board.create_fields();
        board.init_fields();
        proof {
            crate::flags::lemma_fresh_board_has_no_flags(board, None);
        }
        board
    }

    /// Counts the squares that are not kept clear.
    pub(crate) fn count_room(&self, clear: Option<(usize, usize)>) -> (n: usize)
        requires
            self.wf(),
            clear matches Some(c) ==> (c.0 as int) < self.dim() && (c.1 as int) < self.dim(),
        ensures
            n == room_for_mines(clear, self.dim()),
    {
        let ghost dim = self.dim();
        let ghost p = open_to_mines(clear);
        proof {
            lemma_square_fits(dim);
            lemma_walk_covers_grid(dim);
        }
        let mut gen = FieldGenerator::new(self.dimension);
        let mut n: usize = 0;
        loop
            invariant
                self.wf(),
                dim == self.dim(),
                p == open_to_mines(clear),
                clear matches Some(c) ==> (c.0 as int) < dim && (c.1 as int) < dim,
                gen.dim() == self.dimension,
                gen.step() <= dim * dim,
                dim * dim <= 126 * 126,
                n == count_walk(p, dim, gen.step() as int),
                n <= gen.step(),
                walk_fits_grid(dim),
            decreases dim * dim - gen.step(),
        {
            let ghost k = gen.step() as int;
            match gen.next() {
                Some((x, y)) => {
                    proof {
                        vstd::arithmetic::div_mod::lemma_mod_pos_bound(k, dim);
                        vstd::arithmetic::div_mod::lemma_div_pos_is_pos(k, dim);
                        assert(x as int == k / dim && y as int == k % dim);
                    }
                    if !is_kept_clear(clear, x, y) {
                        n = n + 1;
                    }
                },
                None => {
                    return n;
                },
            }
        }
    }
}

} // verus!
