use vstd::prelude::*;
use crate::adjacent::in_grid;
use crate::board::Board;
use crate::field::Field;
use crate::field_gen::{
    count_walk,
    index_of,
    lemma_count_walk_bound,
    lemma_count_walk_change,
    lemma_count_walk_empty,
    lemma_walk_covers_grid,
};
use crate::mines::lemma_square_fits;

verus! {

impl Board {
    /// The number of squares that carry a flag.
    pub open spec fn flag_total(self) -> nat {
        count_walk(self.flag_at(), self.dim(), self.dim() * self.dim())
    }

    /// A right click on `(x, y)` toggles its flag: it takes effect while no more
    /// flags than mines are placed and the square is closed.
    pub open spec fn may_toggle(self, x: int, y: int) -> bool {
        self.flags_placed <= self.mines_count && !self.field(x, y).is_clicked
    }

    /// A right click on `(x, y)` of `self` gives `t` and tells `toggled`.
    pub open spec fn toggle_result(self, x: int, y: int, t: Board, toggled: bool) -> bool {
        let f = self.field(x, y);
        if self.may_toggle(x, y) {
            &&& toggled
            &&& t.field(x, y) == (Field { is_flagged: !f.is_flagged, ..f })
            &&& forall|a: int, b: int|
                in_grid(a, b, self.dim()) && (a != x || b != y) ==> #[trigger] t.field(a, b)
                    == self.field(a, b)
            &&& t.same_but_fields(
                Board {
                    flags_placed: if f.is_flagged {
                        (self.flags_placed - 1) as usize
                    } else {
                        (self.flags_placed + 1) as usize
                    },
                    ..self.repainted(x, y)
                },
            )
        } else {
            !toggled && t == self
        }
    }

    /// The flag count can move as a right click on `(x, y)` asks.
    pub open spec fn flag_count_has_room(self, x: int, y: int) -> bool {
        self.may_toggle(x, y) ==> if self.field(x, y).is_flagged {
            self.flags_placed > 0
        } else {
            self.flags_placed < usize::MAX
        }
    }

    /// A right click on `(x, y)`: while no more flags than mines are placed and
    /// the square is closed, puts a flag on it or takes its flag off, counts the
    /// flags, and repaints it. Tells whether it did.
    pub fn toggle_flag(&mut self, x: usize, y: usize) -> (toggled: bool)
        requires
            old(self).wf(),
            x < old(self).dimension,
            y < old(self).dimension,
            old(self).flag_count_has_room(x as int, y as int),
        ensures
            final(self).wf(),
            old(self).toggle_result(x as int, y as int, *final(self), toggled),
    {
        if self.flags_placed <= self.mines_count && !self.fields[x][y].is_clicked {
            let f = self.fields[x][y];
            let flagged = f.is_flagged;
            if flagged {
                self.flags_placed -= 1;
            } else {
                self.flags_placed += 1;
            }
            self.set_field(x, y, Field { is_flagged: !flagged, ..f });
            let ghost t = *self;
            self.change_pixbuf(x, y);
            proof {
                assert(self.fields == t.fields);
                assert forall|a: int, b: int|
                    in_grid(a, b, self.dim()) && (a != x || b != y) implies #[trigger] self.field(a, b)
                        == old(self).field(a, b) by {
                    assert(self.field(a, b) == t.field(a, b));
                }
            }
            true
        } else {
            false
        }
    }
}

/// A right click taken back by a second one: two right clicks on a square,
/// the first of which took effect, give back every square and every counter;
/// the bad guy standing there is left awake or asleep as a repaint leaves him.
/// It holds when the square carried a flag or fewer flags than mines were
/// placed (else the second click finds more flags than mines and does nothing).
pub proof fn lemma_toggle_twice(b0: Board, b1: Board, b2: Board, x: int, y: int, t1: bool, t2: bool)
    requires
        b0.wf(),
        in_grid(x, y, b0.dim()),
        b0.toggle_result(x, y, b1, t1),
        b1.toggle_result(x, y, b2, t2),
        b0.may_toggle(x, y),
        b0.flag_count_has_room(x, y) || b0.flags_placed == b0.flag_total(),
        b0.field(x, y).is_flagged || b0.flags_placed < b0.mines_count,
    ensures
        t1 && t2,
        forall|a: int, b: int| in_grid(a, b, b0.dim()) ==> #[trigger] b2.field(a, b) == b0.field(a, b),
        b2.same_but_fields(b0.repainted(x, y)),
{
    if b0.flags_placed == b0.flag_total() && b0.field(x, y).is_flagged {
        lemma_flagged_square_counts(b0, x, y);
    }
    assert(b1.may_toggle(x, y));
    assert forall|a: int, b: int| in_grid(a, b, b0.dim()) implies #[trigger] b2.field(a, b) == b0.field(a, b) by {
        if a != x || b != y {
            assert(b1.field(a, b) == b0.field(a, b));
        }
    }
}

/// A flagged square is counted among the flags.
proof fn lemma_flagged_square_counts(b: Board, x: int, y: int)
    requires
        b.wf(),
        in_grid(x, y, b.dim()),
        b.field(x, y).is_flagged,
    ensures
        b.flag_total() >= 1,
{
    let dim = b.dim();
    lemma_square_fits(dim);
    let q = |u: int, v: int| b.flag_at()(u, v) && (u != x || v != y);
    lemma_count_walk_change(b.flag_at(), q, dim, dim * dim, x, y);
    lemma_walk_covers_grid(dim);
    assert(index_of(x, y, dim) < dim * dim);
}

/// A right click keeps the flag count true: when `flags_placed` is the number
/// of squares that carry a flag before it, it is after it.
pub proof fn lemma_toggle_keeps_flag_count(b0: Board, b1: Board, x: int, y: int, toggled: bool)
    requires
        b0.wf(),
        in_grid(x, y, b0.dim()),
        b0.toggle_result(x, y, b1, toggled),
        b0.flags_placed == b0.flag_total(),
    ensures
        b1.flags_placed == b1.flag_total(),
{
    let dim = b0.dim();
    if b0.may_toggle(x, y) {
        lemma_square_fits(dim);
        lemma_walk_covers_grid(dim);
        assert(index_of(x, y, dim) < dim * dim);
        lemma_count_walk_change(b0.flag_at(), b1.flag_at(), dim, dim * dim, x, y);
        lemma_count_walk_bound(b0.flag_at(), dim, dim * dim);
        if b0.field(x, y).is_flagged {
            lemma_flagged_square_counts(b0, x, y);
        }
    } else {
        assert(b1.flag_at() =~= b0.flag_at());
    }
}

/// A board whose mines were just laid carries no flag.
pub proof fn lemma_fresh_board_has_no_flags(b: Board, clear: Option<(usize, usize)>)
    requires
        b.wf(),
        b.freshly_laid(clear),
    ensures
        b.flag_total() == 0,
{
    let dim = b.dim();
    lemma_square_fits(dim);
    assert forall|u: int, v: int| 0 <= u < dim && 0 <= v < dim implies !#[trigger] b.flag_at()(u, v) by {
        assert(!b.field(u, v).is_flagged);
    }
    lemma_count_walk_empty(b.flag_at(), dim, dim * dim);
}

} // verus!
