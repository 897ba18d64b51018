use vstd::prelude::*;

verus! {

/// The offset visited at step `k` of a walk around a cell: the row above
/// (left to right), then the left and right neighbours, then the row below.
/// Step 8 is the parked state reached once the walk is over.
pub open spec fn offset_at(k: int) -> (int, int) {
    if k == 0 {
        (-1, -1)
    } else if k == 1 {
        (0, -1)
    } else if k == 2 {
        (1, -1)
    } else if k == 3 {
        (-1, 0)
    } else if k == 4 {
        (1, 0)
    } else if k == 5 {
        (-1, 1)
    } else if k == 6 {
        (0, 1)
    } else if k == 7 {
        (1, 1)
    } else {
        (-1, 2)
    }
}

/// A cell `(a, b)` lies on a square grid of side `dim`.
pub open spec fn in_grid(a: int, b: int, dim: int) -> bool {
    0 <= a < dim && 0 <= b < dim
}

/// The cells around `(cx, cy)` that lie on the grid, from step `k` of the walk on.
pub open spec fn neighbors_from(cx: int, cy: int, dim: int, k: int) -> Seq<(usize, usize)>
    decreases 8 - k,
{
    if k >= 8 {
        seq![]
    } else {
        let rest = neighbors_from(cx, cy, dim, k + 1);
        let a = cx + offset_at(k).0;
        let b = cy + offset_at(k).1;
        if in_grid(a, b, dim) {
            seq![(a as usize, b as usize)] + rest
        } else {
            rest
        }
    }
}

/// All the cells around `(cx, cy)` that lie on the grid, in the order of the walk.
pub open spec fn neighbors(cx: int, cy: int, dim: int) -> Seq<(usize, usize)> {
    neighbors_from(cx, cy, dim, 0)
}

/// `(a, b)` touches `(cx, cy)` by a side or a corner and is not that cell.
pub open spec fn touches(a: int, b: int, cx: int, cy: int) -> bool {
    &&& -1 <= a - cx <= 1
    &&& -1 <= b - cy <= 1
    &&& (a != cx || b != cy)
}

proof fn lemma_neighbors_from(cx: int, cy: int, dim: int, k: int)
    requires
        0 <= k <= 8,
        dim <= 127,
    ensures
        neighbors_from(cx, cy, dim, k).len() <= 8 - k,
        neighbors_from(cx, cy, dim, k).no_duplicates(),
        forall|i: int|
            0 <= i < neighbors_from(cx, cy, dim, k).len() ==> {
                let p = #[trigger] neighbors_from(cx, cy, dim, k)[i];
                &&& in_grid(p.0 as int, p.1 as int, dim)
                &&& k <= offset_index(p.0 - cx, p.1 - cy) < 8
            },
        forall|i: int, j: int|
            0 <= i < j < neighbors_from(cx, cy, dim, k).len() ==> offset_index(
                (#[trigger] neighbors_from(cx, cy, dim, k)[i]).0 - cx,
                neighbors_from(cx, cy, dim, k)[i].1 - cy,
            ) < offset_index(
                (#[trigger] neighbors_from(cx, cy, dim, k)[j]).0 - cx,
                neighbors_from(cx, cy, dim, k)[j].1 - cy,
            ),
        forall|j: int|
            k <= j < 8 && in_grid(cx + offset_at(j).0, cy + offset_at(j).1, dim) ==> neighbors_from(
                cx,
                cy,
                dim,
                k,
            ).contains(((cx + offset_at(j).0) as usize, (cy + offset_at(j).1) as usize)),
    decreases 8 - k,
{
    if k < 8 {
        lemma_neighbors_from(cx, cy, dim, k + 1);
        let rest = neighbors_from(cx, cy, dim, k + 1);
        let a = cx + offset_at(k).0;
        let b = cy + offset_at(k).1;
        let s = neighbors_from(cx, cy, dim, k);
        if in_grid(a, b, dim) {
            assert(s == seq![(a as usize, b as usize)] + rest);
            assert(s[0] == (a as usize, b as usize));
            assert forall|i: int| 0 < i < s.len() implies s[i] == rest[i - 1] by {}
            assert(offset_index(a - cx, b - cy) == k);
            assert forall|i: int, j: int| 0 <= i < j < s.len() implies offset_index(
                (#[trigger] s[i]).0 - cx,
                s[i].1 - cy,
            ) < offset_index((#[trigger] s[j]).0 - cx, s[j].1 - cy) by {
                assert(s[j] == rest[j - 1]);
                if i > 0 {
                    assert(s[i] == rest[i - 1]);
                }
            }
            assert(!rest.contains((a as usize, b as usize)));
            assert forall|j: int|
                k <= j < 8 && in_grid(cx + offset_at(j).0, cy + offset_at(j).1, dim) implies s.contains(
                ((cx + offset_at(j).0) as usize, (cy + offset_at(j).1) as usize),
            ) by {
                if j == k {
                    assert(s[0] == ((cx + offset_at(j).0) as usize, (cy + offset_at(j).1) as usize));
                } else {
                    let p = ((cx + offset_at(j).0) as usize, (cy + offset_at(j).1) as usize);
                    assert(rest.contains(p));
                    let i = choose|i: int| 0 <= i < rest.len() && rest[i] == p;
                    assert(s[i + 1] == p);
                }
            }
        } else {
            assert(s == rest);
        }
    }
}

/// What a walk hands out: each cell of the grid that touches `(cx, cy)`, once,
/// and nothing else; at most eight cells.
pub proof fn lemma_neighbors_exact(cx: int, cy: int, dim: int)
    requires
        dim <= 127,
    ensures
        neighbors(cx, cy, dim).len() <= 8,
        neighbors(cx, cy, dim).no_duplicates(),
        forall|i: int|
            0 <= i < neighbors(cx, cy, dim).len() ==> {
                let p = #[trigger] neighbors(cx, cy, dim)[i];
                in_grid(p.0 as int, p.1 as int, dim) && touches(p.0 as int, p.1 as int, cx, cy)
            },
        forall|a: int, b: int|
            in_grid(a, b, dim) && touches(a, b, cx, cy) ==> neighbors(cx, cy, dim).contains(
                (a as usize, b as usize),
            ),
{
    lemma_neighbors_from(cx, cy, dim, 0);
    let s = neighbors(cx, cy, dim);
    assert forall|a: int, b: int| in_grid(a, b, dim) && touches(a, b, cx, cy) implies s.contains(
        (a as usize, b as usize),
    ) by {
        let j = if b == cy - 1 {
            a - cx + 1
        } else if b == cy {
            if a == cx - 1 { 3 } else { 4 }
        } else {
            a - cx + 6
        };
        assert(offset_at(j) == (a - cx, b - cy));
    }
}

/// `p` comes before `q` when cells are read row by row: by their second
/// coordinate, then by their first.
pub open spec fn reads_before(p: (usize, usize), q: (usize, usize)) -> bool {
    p.1 < q.1 || (p.1 == q.1 && p.0 < q.0)
}

/// The walk hands out the cells around `(cx, cy)` in reading order: the row
/// above from left to right, then the left and right neighbours, then the row
/// below.
pub proof fn lemma_neighbors_in_order(cx: int, cy: int, dim: int)
    requires
        0 <= cx < dim <= 127,
        0 <= cy < dim,
    ensures
        forall|i: int, j: int|
            0 <= i < j < neighbors(cx, cy, dim).len() ==> reads_before(
                #[trigger] neighbors(cx, cy, dim)[i],
                #[trigger] neighbors(cx, cy, dim)[j],
            ),
{
    lemma_neighbors_from(cx, cy, dim, 0);
    let s = neighbors(cx, cy, dim);
    assert forall|i: int, j: int| 0 <= i < j < s.len() implies reads_before(
        #[trigger] s[i],
        #[trigger] s[j],
    ) by {
        assert(in_grid(s[i].0 as int, s[i].1 as int, dim));
        assert(in_grid(s[j].0 as int, s[j].1 as int, dim));
        assert(offset_index(s[i].0 - cx, s[i].1 - cy) < offset_index(s[j].0 - cx, s[j].1 - cy));
    }
}

/// How many cells the walk hands out: none on a grid of one cell, 3 around a
/// corner, 5 around another cell of the edge, 8 around an inner cell.
pub proof fn lemma_neighbors_count(cx: int, cy: int, dim: int)
    requires
        0 <= cx < dim <= 127,
        0 <= cy < dim,
    ensures
        dim == 1 ==> neighbors(cx, cy, dim).len() == 0,
        dim >= 2 && (cx == 0 || cx == dim - 1) && (cy == 0 || cy == dim - 1) ==> neighbors(
            cx,
            cy,
            dim,
        ).len() == 3,
        dim >= 2 && (cx == 0 || cx == dim - 1 || cy == 0 || cy == dim - 1) && !((cx == 0 || cx
            == dim - 1) && (cy == 0 || cy == dim - 1)) ==> neighbors(cx, cy, dim).len() == 5,
        0 < cx < dim - 1 && 0 < cy < dim - 1 ==> neighbors(cx, cy, dim).len() == 8,
{
    reveal_with_fuel(neighbors_from, 9);
}

/// The step of the walk at which the offset `(dx, dy)` is visited (9 for one
/// that no step visits).
pub open spec fn offset_index(dx: int, dy: int) -> int {
    if dy == -1 && -1 <= dx <= 1 {
        dx + 1
    } else if dy == 0 && dx == -1 {
        3
    } else if dy == 0 && dx == 1 {
        4
    } else if dy == 1 && -1 <= dx <= 1 {
        dx + 6
    } else if dy == 2 && dx == -1 {
        8
    } else {
        9
    }
}

/// The step of the walk that an offset stands for.
pub open spec fn step_of(o: (i8, i8)) -> int {
    offset_index(o.0 as int, o.1 as int)
}

/// The coordinates `Adjacent` can walk around without leaving `i8`.
pub open spec fn walkable(cx: int, cy: int) -> bool {
    -127 <= cx <= 126 && -127 <= cy <= 125
}

/// Walks the cells around `coord` that lie on a `dimension` by `dimension` grid.
pub struct Adjacent {
    pub coord: (i8, i8),
    pub(crate) offset: (i8, i8),
    pub(crate) dimension: i8,
}

impl Adjacent {
    /// The cell that the walk goes around: its field `coord`.
    pub open(crate) spec fn center(&self) -> (i8, i8) {
        self.coord
    }

    /// The side of the grid, as the walk sees it.
    pub open(crate) spec fn dim(&self) -> int {
        self.dimension as int
    }

    /// The walk is in one of its steps and its cells stay within `i8`.
    pub closed spec fn wf(&self) -> bool {
        &&& step_of(self.offset) <= 8
        &&& walkable(self.coord.0 as int, self.coord.1 as int)
    }

    /// The cells that the walk has still to hand out, in order.
    pub closed spec fn remaining(&self) -> Seq<(usize, usize)> {
        neighbors_from(self.coord.0 as int, self.coord.1 as int, self.dimension as int, step_of(self.offset))
    }

    /// Starts a walk around `(x, y)`; the coordinates and the side are taken as
    /// `i8`. The walk can go on (`next` can be called) when its cells stay
    /// within `i8`.
    pub fn new(dimension: usize, x: usize, y: usize) -> (adj: Adjacent)
        ensures
            adj.wf() == walkable((x as i8) as int, (y as i8) as int),
            adj.center() == (x as i8, y as i8),
            adj.dim() == (dimension as i8) as int,
            adj.remaining() == neighbors((x as i8) as int, (y as i8) as int, (dimension as i8) as int),
    {
        Adjacent { coord: (x as i8, y as i8), offset: (-1, -1), dimension: dimension as i8 }
    }

    /// Hands out the next cell of the walk that lies on the grid, or `None` once
    /// there is none left.
    pub fn next(&mut self) -> (r: Option<(usize, usize)>)
        requires
            old(self).wf(),
        ensures
            final(self).wf(),
            final(self).center() == old(self).center(),
            final(self).dim() == old(self).dim(),
            old(self).remaining().len() == 0 ==> r is None && final(self).remaining().len() == 0,
            old(self).remaining().len() > 0 ==> r == Some(old(self).remaining()[0])
                && final(self).remaining() == old(self).remaining().drop_first(),
    {
        let ghost rem0 = self.remaining();
        loop
            invariant
                self.wf(),
                self.coord == old(self).coord,
                self.dimension == old(self).dimension,
                self.remaining() == rem0,
                rem0 == old(self).remaining(),
            decreases 8 - step_of(self.offset),
        {
            let ghost k = step_of(self.offset);
            let adjacent = (self.coord.0 + self.offset.0, self.coord.1 + self.offset.1);
            if self.offset.0 < 1 && self.offset.1 <= 1 {
                self.offset.0 += 1;
                if self.offset.0 == 0 && self.offset.1 == 0 {
                    self.offset.0 += 1;
                }
            } else if self.offset.0 >= 1 && self.offset.1 <= 1 {
                self.offset.0 = -1;
                self.offset.1 += 1;
            } else {
                return None;
            }
            assert(step_of(self.offset) == k + 1);
            if adjacent.0 >= 0 && adjacent.0 < self.dimension && adjacent.1 >= 0 && adjacent.1
                < self.dimension {
                return Some((adjacent.0 as usize, adjacent.1 as usize));
            }
        }
    }
}

} // verus!
