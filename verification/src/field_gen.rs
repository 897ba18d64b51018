use vstd::prelude::*;

verus! {

/// The cell that a row-major walk of a grid of side `dim` reaches at step `i`.
pub open spec fn cell_of(i: int, dim: int) -> (usize, usize) {
    ((i / dim) as usize, (i % dim) as usize)
}

/// The step at which a row-major walk of a grid of side `dim` reaches `(a, b)`.
pub open spec fn index_of(a: int, b: int, dim: int) -> int {
    a * dim + b
}

/// How many of the first `n` cells of a row-major walk of a grid of side `dim`
/// satisfy `p`.
pub open spec fn count_walk(p: spec_fn(int, int) -> bool, dim: int, n: int) -> nat
    decreases n,
{
    if n <= 0 {
        0
    } else {
        count_walk(p, dim, n - 1) + if p((n - 1) / dim, (n - 1) % dim) {
            1nat
        } else {
            0nat
        }
    }
}

/// Walks every cell of a `dimension` by `dimension` grid, row by row.
pub struct FieldGenerator {
    pub counter: usize,
    pub(crate) dimension: usize,
}

impl FieldGenerator {
    /// How many cells the walk has handed out.
    pub open(crate) spec fn step(&self) -> usize {
        self.counter
    }

    /// The side of the grid being walked.
    pub open(crate) spec fn dim(&self) -> usize {
        self.dimension
    }

    /// Starts a walk at the first cell.
    pub fn new(dimension: usize) -> (g: FieldGenerator)
        ensures
            g.step() == 0,
            g.dim() == dimension,
    {
        FieldGenerator { counter: 0, dimension }
    }

    /// Hands out the cell at step `counter` and moves on, or `None` once every
    /// cell has been handed out.
    pub fn next(&mut self) -> (r: Option<(usize, usize)>)
        requires
            old(self).dim() * old(self).dim() <= usize::MAX,
            old(self).step() != old(self).dim() * old(self).dim() ==> old(self).dim() > 0
                && old(self).step() < usize::MAX,
        ensures
            final(self).dim() == old(self).dim(),
            old(self).step() == old(self).dim() * old(self).dim() ==> r is None
                && final(self).step() == old(self).step(),
            old(self).step() != old(self).dim() * old(self).dim() ==> r == Some(
                cell_of(old(self).step() as int, old(self).dim() as int),
            ) && final(self).step() == old(self).step() + 1,
    {
        if self.counter == self.dimension * self.dimension {
            return None;
        }
        let x = self.counter / self.dimension;
        let y = self.counter % self.dimension;
        self.counter += 1;

        Some((x, y))
    }
}

/// Each of the first `dim * dim` steps of a row-major walk lands on a cell of
/// the grid whose row-major index is that step, and each cell of the grid has
/// an index among those steps that leads back to it.
pub open spec fn walk_fits_grid(dim: int) -> bool {
    &&& forall|i: int|
        0 <= i < dim * dim ==> {
            let c = #[trigger] cell_of(i, dim);
            (c.0 as int) < dim && (c.1 as int) < dim && c.0 as int * dim + c.1 as int == i
        }
    &&& forall|a: int, b: int|
        0 <= a < dim && 0 <= b < dim ==> 0 <= #[trigger] index_of(a, b, dim) < dim * dim
            && cell_of(index_of(a, b, dim), dim) == (a as usize, b as usize)
}

/// A row-major walk of a grid of side `dim` reaches each of its cells exactly
/// once in its first `dim * dim` steps, and only cells of the grid.
pub proof fn lemma_walk_covers_grid(dim: int)
    requires
        dim > 0,
        dim * dim <= usize::MAX,
    ensures
        walk_fits_grid(dim),
{
    assert(dim <= dim * dim) by (nonlinear_arith)
        requires
            0 < dim,
    ;
    assert forall|i: int| 0 <= i < dim * dim implies {
        let c = #[trigger] cell_of(i, dim);
        (c.0 as int) < dim && (c.1 as int) < dim && c.0 as int * dim + c.1 as int == i
    } by {
        vstd::arithmetic::div_mod::lemma_fundamental_div_mod(i, dim);
        vstd::arithmetic::div_mod::lemma_div_pos_is_pos(i, dim);
        vstd::arithmetic::div_mod::lemma_mod_pos_bound(i, dim);
        vstd::arithmetic::div_mod::lemma_multiply_divide_lt(i, dim, dim);
        let q = i / dim;
        let r = i % dim;
        assert(0 <= q < dim);
        assert(0 <= r < dim);
        assert(i == dim * q + r);
        assert(q * dim == dim * q) by (nonlinear_arith);
        assert((q as usize) as int == q);
        assert((r as usize) as int == r);
    }
    assert forall|a: int, b: int| 0 <= a < dim && 0 <= b < dim implies 0 <= #[trigger] index_of(
        a,
        b,
        dim,
    ) < dim * dim && cell_of(index_of(a, b, dim), dim) == (a as usize, b as usize) by {
        assert(a * dim + b < dim * dim) by (nonlinear_arith)
            requires
                0 <= a < dim,
                0 <= b < dim,
        ;
        assert(0 <= a * dim) by (nonlinear_arith)
            requires
                0 <= a,
                0 < dim,
        ;
        vstd::arithmetic::div_mod::lemma_fundamental_div_mod_converse(a * dim + b, dim, a, b);
        assert(a * dim == dim * a) by (nonlinear_arith);
        assert((a * dim + b) / dim == a);
        assert((a * dim + b) % dim == b);
    }
}

/// A count never exceeds the number of steps counted over.
pub proof fn lemma_count_walk_bound(p: spec_fn(int, int) -> bool, dim: int, n: int)
    requires
        0 <= n,
    ensures
        count_walk(p, dim, n) <= n,
    decreases n,
{
    if n > 0 {
        lemma_count_walk_bound(p, dim, n - 1);
    }
}

/// Splitting a condition by a second one splits its count.
pub proof fn lemma_count_walk_split(
    p: spec_fn(int, int) -> bool,
    q: spec_fn(int, int) -> bool,
    dim: int,
    n: int,
)
    ensures
        count_walk(p, dim, n) == count_walk(|u: int, v: int| p(u, v) && q(u, v), dim, n)
            + count_walk(|u: int, v: int| p(u, v) && !q(u, v), dim, n),
    decreases n,
{
    if n > 0 {
        lemma_count_walk_split(p, q, dim, n - 1);
    }
}

/// A condition that holds on the whole grid counts every step.
pub proof fn lemma_count_walk_full(p: spec_fn(int, int) -> bool, dim: int, n: int)
    requires
        dim > 0,
        dim * dim <= usize::MAX,
        0 <= n <= dim * dim,
        forall|u: int, v: int| 0 <= u < dim && 0 <= v < dim ==> #[trigger] p(u, v),
    ensures
        count_walk(p, dim, n) == n,
    decreases n,
{
    if n > 0 {
        lemma_walk_covers_grid(dim);
        assert(cell_of(n - 1, dim).0 < dim);
        vstd::arithmetic::div_mod::lemma_mod_pos_bound(n - 1, dim);
        vstd::arithmetic::div_mod::lemma_div_pos_is_pos(n - 1, dim);
        assert(p((n - 1) / dim, (n - 1) % dim));
        lemma_count_walk_full(p, dim, n - 1);
    }
}

/// A condition that holds nowhere on the grid counts nothing.
pub proof fn lemma_count_walk_empty(p: spec_fn(int, int) -> bool, dim: int, n: int)
    requires
        dim > 0,
        dim * dim <= usize::MAX,
        0 <= n <= dim * dim,
        forall|u: int, v: int| 0 <= u < dim && 0 <= v < dim ==> !#[trigger] p(u, v),
    ensures
        count_walk(p, dim, n) == 0,
    decreases n,
{
    if n > 0 {
        lemma_walk_covers_grid(dim);
        assert(cell_of(n - 1, dim).0 < dim);
        vstd::arithmetic::div_mod::lemma_mod_pos_bound(n - 1, dim);
        vstd::arithmetic::div_mod::lemma_div_pos_is_pos(n - 1, dim);
        assert(!p((n - 1) / dim, (n - 1) % dim));
        lemma_count_walk_empty(p, dim, n - 1);
    }
}

/// Two conditions that agree on every cell of the grid count alike.
pub proof fn lemma_count_walk_same(
    p: spec_fn(int, int) -> bool,
    q: spec_fn(int, int) -> bool,
    dim: int,
    n: int,
)
    requires
        dim > 0,
        dim * dim <= usize::MAX,
        0 <= n <= dim * dim,
        forall|u: int, v: int| 0 <= u < dim && 0 <= v < dim ==> #[trigger] p(u, v) == q(u, v),
    ensures
        count_walk(p, dim, n) == count_walk(q, dim, n),
    decreases n,
{
    if n > 0 {
        lemma_walk_covers_grid(dim);
        assert(cell_of(n - 1, dim).0 < dim);
        lemma_count_walk_same(p, q, dim, n - 1);
    }
}

/// Changing a condition on the single cell `(a, b)` changes the count by the
/// difference at that cell, once the walk has passed it.
pub proof fn lemma_count_walk_change(
    p: spec_fn(int, int) -> bool,
    q: spec_fn(int, int) -> bool,
    dim: int,
    n: int,
    a: int,
    b: int,
)
    requires
        dim > 0,
        dim * dim <= usize::MAX,
        0 <= n <= dim * dim,
        0 <= a < dim,
        0 <= b < dim,
        forall|u: int, v: int|
            0 <= u < dim && 0 <= v < dim && (u != a || v != b) ==> #[trigger] p(u, v) == q(u, v),
    ensures
        count_walk(q, dim, n) == count_walk(p, dim, n) + if n > index_of(a, b, dim) {
            (if q(a, b) {
                1int
            } else {
                0int
            }) - (if p(a, b) {
                1int
            } else {
                0int
            })
        } else {
            0int
        },
    decreases n,
{
    if n > 0 {
        lemma_walk_covers_grid(dim);
        let k = n - 1;
        let c = cell_of(k, dim);
        assert(c.0 as int * dim + c.1 as int == k);
        assert(0 <= index_of(a, b, dim) < dim * dim);
        assert(cell_of(index_of(a, b, dim), dim) == (a as usize, b as usize));
        vstd::arithmetic::div_mod::lemma_mod_pos_bound(k, dim);
        vstd::arithmetic::div_mod::lemma_div_pos_is_pos(k, dim);
        assert(dim <= dim * dim) by (nonlinear_arith)
            requires
                0 < dim,
        ;
        assert((c.0 as int) == k / dim);
        assert((c.1 as int) == k % dim);
        if k == index_of(a, b, dim) {
            vstd::arithmetic::div_mod::lemma_fundamental_div_mod_converse(k, dim, a, b);
            assert(k / dim == a && k % dim == b);
        } else {
            assert(k / dim != a || k % dim != b);
        }
        lemma_count_walk_change(p, q, dim, n - 1, a, b);
    }
}

/// The cells a row-major walk of a grid of side `dim` hands out, in order.
pub open spec fn walk_cells(dim: int) -> Seq<(usize, usize)> {
    Seq::new((dim * dim) as nat, |i: int| cell_of(i, dim))
}

/// A row-major walk hands out `dim * dim` cells, row after row and left to right
/// within a row (so each comes after the one before it), and every cell of the
/// grid, and only those.
pub proof fn lemma_walk_enumerates(dim: int)
    requires
        0 <= dim,
        dim * dim <= usize::MAX,
    ensures
        walk_cells(dim).len() == dim * dim,
        forall|i: int, j: int|
            0 <= i < j < walk_cells(dim).len() ==> {
                let p = #[trigger] walk_cells(dim)[i];
                let q = #[trigger] walk_cells(dim)[j];
                p.0 < q.0 || (p.0 == q.0 && p.1 < q.1)
            },
        forall|a: usize, b: usize|
            #[trigger] walk_cells(dim).contains((a, b)) <==> (a as int) < dim && (b as int) < dim,
{
    let s = walk_cells(dim);
    if dim == 0 {
        assert forall|a: usize, b: usize| #[trigger] s.contains((a, b)) implies (a as int) < dim
            && (b as int) < dim by {}
        return;
    }
    assert(0 <= dim * dim) by (nonlinear_arith)
        requires
            0 < dim,
    ;
    lemma_walk_covers_grid(dim);
    assert forall|i: int, j: int| 0 <= i < j < s.len() implies {
        let p = #[trigger] s[i];
        let q = #[trigger] s[j];
        p.0 < q.0 || (p.0 == q.0 && p.1 < q.1)
    } by {
        let p = cell_of(i, dim);
        let q = cell_of(j, dim);
        assert(p.0 as int * dim + p.1 as int == i);
        assert(q.0 as int * dim + q.1 as int == j);
        vstd::arithmetic::div_mod::lemma_div_is_ordered(i, j, dim);
        vstd::arithmetic::div_mod::lemma_div_pos_is_pos(i, dim);
        vstd::arithmetic::div_mod::lemma_mod_pos_bound(i, dim);
        vstd::arithmetic::div_mod::lemma_mod_pos_bound(j, dim);
        assert(p.0 as int == i / dim);
        assert(q.0 as int == j / dim);
        if p.0 == q.0 {
            assert(p.0 as int * dim == q.0 as int * dim);
        }
    }
    assert forall|a: usize, b: usize| #[trigger] s.contains((a, b)) <==> (a as int) < dim && (
    b as int) < dim by {
        if s.contains((a, b)) {
            let i = choose|i: int| 0 <= i < s.len() && s[i] == (a, b);
            assert(cell_of(i, dim) == (a, b));
        }
        if (a as int) < dim && (b as int) < dim {
            let k = index_of(a as int, b as int, dim);
            assert(s[k] == (a, b));
        }
    }
}

} // verus!
