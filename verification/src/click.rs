use vstd::prelude::*;
use std::collections::VecDeque;
use crate::adjacent::{Adjacent, in_grid, neighbors, touches, lemma_neighbors_exact};
use crate::bad_guy::BadGuy;
use crate::board::{Board, kept_clear, lemma_count_cells_zero};
use crate::field::Field;
use crate::field_gen::{
    FieldGenerator,
    cell_of,
    count_walk,
    index_of,
    lemma_walk_covers_grid,
    walk_fits_grid,
    lemma_count_walk_change,
};
use crate::mines::{lemma_square_fits, room_for_mines};

verus! {

/// What a click came to.
#[derive(Clone, Copy, Debug, PartialEq, Eq, Structural)]
pub enum ClickOutcome {
    /// The square carries a flag, or the game is over: nothing happened.
    Ignored,
    /// The square held a mine: the game is over.
    Exploded,
    /// An unflagged mine lay around a square whose flags were trusted: the game is over.
    WrongFlag,
    /// Every square without a mine is now open: the game is won.
    Won,
    /// The game goes on.
    Continued,
}

/// What a click did: its outcome, the squares to repaint, and whether the mines
/// were laid anew first (so that every square needs repainting).
pub struct ClickReport {
    pub outcome: ClickOutcome,
    pub repaint: Vec<(usize, usize)>,
    pub renewed: bool,
}

/// Where the opening of `(x, y)` on `s` starts: the square itself, or a closed
/// square next to it without a mine.
pub open spec fn flood_start(s: Board, x: int, y: int, c: (int, int)) -> bool {
    ||| c.0 == x && c.1 == y
    ||| in_grid(c.0, c.1, s.dim()) && touches(c.0, c.1, x, y) && !s.field(c.0, c.1).is_clicked
        && !s.is_mine(c.0, c.1)
}

/// The opening of `(x, y)` spreads from `from`, which shows 0, to the closed
/// square `to` next to it (other than `(x, y)`, where it started).
pub open spec fn flood_step(s: Board, x: int, y: int, from: (int, int), to: (int, int)) -> bool {
    &&& s.field(from.0, from.1).value == 0
    &&& in_grid(to.0, to.1, s.dim())
    &&& touches(to.0, to.1, from.0, from.1)
    &&& !s.field(to.0, to.1).is_clicked
    &&& (to.0 != x || to.1 != y)
}

/// Step `i` of `path` is a step of the opening of `(x, y)`.
pub open spec fn step_holds(s: Board, x: int, y: int, path: Seq<(int, int)>, i: int) -> bool {
    flood_step(s, x, y, path[i], path[i + 1])
}

/// `path` is a way the opening of `(x, y)` on `s` can go.
pub open spec fn flood_path(s: Board, x: int, y: int, path: Seq<(int, int)>) -> bool {
    &&& path.len() > 0
    &&& flood_start(s, x, y, path[0])
    &&& forall|i: int| 0 <= i < path.len() - 1 ==> #[trigger] step_holds(s, x, y, path, i)
}

/// Opening `(x, y)` on `s` reaches `c`: from the square itself and the closed
/// squares around it without a mine, on through every closed square next to an
/// opened square that shows 0.
pub open spec fn flooded(s: Board, x: int, y: int, c: (int, int)) -> bool {
    exists|path: Seq<(int, int)>| #[trigger] flood_path(s, x, y, path) && path.last() == c
}

/// What a sequence holds after a push.
pub proof fn lemma_push_contains<A>(s: Seq<A>, v: A, e: A)
    ensures
        s.push(v).contains(e) <==> s.contains(e) || e == v,
{
    let t = s.push(v);
    if s.contains(e) {
        let i = choose|i: int| 0 <= i < s.len() && s[i] == e;
        assert(t[i] == e);
    }
    if e == v {
        assert(t[s.len() as int] == e);
    }
    if t.contains(e) {
        let i = choose|i: int| 0 <= i < t.len() && t[i] == e;
        if i < s.len() {
            assert(s[i] == e);
        }
    }
}

/// What a sequence holds after its first item is taken off.
pub proof fn lemma_pop_contains<A>(s: Seq<A>, e: A)
    requires
        s.len() > 0,
    ensures
        s.contains(e) <==> s[0] == e || s.subrange(1, s.len() as int).contains(e),
{
    let t = s.subrange(1, s.len() as int);
    if s.contains(e) && s[0] != e {
        let i = choose|i: int| 0 <= i < s.len() && s[i] == e;
        assert(t[i - 1] == e);
    }
    if t.contains(e) {
        let i = choose|i: int| 0 <= i < t.len() && t[i] == e;
        assert(s[i + 1] == e);
    }
    if s[0] == e {
        assert(s.contains(e));
    }
}

proof fn lemma_flood_start(s: Board, x: int, y: int, c: (int, int))
    requires
        flood_start(s, x, y, c),
    ensures
        flooded(s, x, y, c),
{
    let path = seq![c];
    assert(flood_path(s, x, y, path));
}

proof fn lemma_flood_extend(s: Board, x: int, y: int, c: (int, int), n: (int, int))
    requires
        flooded(s, x, y, c),
        flood_step(s, x, y, c, n),
    ensures
        flooded(s, x, y, n),
{
    let path = choose|path: Seq<(int, int)>| #[trigger] flood_path(s, x, y, path) && path.last() == c;
    let p2 = path.push(n);
    assert forall|i: int| 0 <= i < p2.len() - 1 implies #[trigger] step_holds(s, x, y, p2, i) by {
        if i < path.len() - 1 {
            assert(step_holds(s, x, y, path, i));
        }
    }
    assert(flood_path(s, x, y, p2));
    assert(p2.last() == n);
}

/// Boards whose squares agree but for whether `(x, y)` is opened open `(x, y)` alike.
proof fn lemma_flooded_same(s1: Board, s2: Board, x: int, y: int, c: (int, int))
    requires
        s1.dim() == s2.dim(),
        in_grid(x, y, s1.dim()),
        forall|a: int, b: int|
            in_grid(a, b, s1.dim()) ==> (#[trigger] s1.field(a, b)).value == s2.field(a, b).value,
        forall|a: int, b: int|
            in_grid(a, b, s1.dim()) && (a != x || b != y) ==> (#[trigger] s1.field(
                a,
                b,
            )).is_clicked == s2.field(a, b).is_clicked,
        flooded(s1, x, y, c),
    ensures
        flooded(s2, x, y, c),
{
    let path = choose|path: Seq<(int, int)>| #[trigger] flood_path(s1, x, y, path) && path.last() == c;
    assert forall|i: int| 0 <= i < path.len() - 1 implies #[trigger] step_holds(s2, x, y, path, i) by {
        assert(step_holds(s1, x, y, path, i));
        if i > 0 {
            assert(step_holds(s1, x, y, path, i - 1));
        } else {
            assert(flood_start(s1, x, y, path[0]));
        }
    }
    assert(flood_path(s2, x, y, path));
}

/// An unflagged mine lies at `c`.
pub open spec fn bad_at(s: Board, c: (usize, usize)) -> bool {
    s.is_mine(c.0 as int, c.1 as int) && !s.field(c.0 as int, c.1 as int).is_flagged
}

/// The position of the first unflagged mine in `cells` from position `i` on
/// (the length of `cells` when there is none).
pub open spec fn first_bad_from(s: Board, cells: Seq<(usize, usize)>, i: int) -> int
    decreases cells.len() - i,
{
    if i >= cells.len() {
        cells.len() as int
    } else if bad_at(s, cells[i]) {
        i
    } else {
        first_bad_from(s, cells, i + 1)
    }
}

/// The position of the first unflagged mine around `(x, y)`, in the order of
/// the walk (the number of squares around it when there is none).
pub open spec fn first_bad(s: Board, x: int, y: int) -> int {
    first_bad_from(s, neighbors(x, y, s.dim()), 0)
}

/// `(a, b)` is closed, holds no mine, and is among the first `t` squares
/// around `(x, y)`.
pub open spec fn opened_upto(s: Board, x: int, y: int, t: int, a: int, b: int) -> bool {
    exists|i: int|
        0 <= i < t && #[trigger] neighbors(x, y, s.dim())[i] == (a as usize, b as usize)
            && !s.field(a, b).is_clicked && !s.is_mine(a, b)
}

/// `(a, b)` is closed, holds no mine, and comes before the first unflagged
/// mine around `(x, y)`.
pub open spec fn early_opened(s: Board, x: int, y: int, a: int, b: int) -> bool {
    opened_upto(s, x, y, first_bad(s, x, y), a, b)
}

/// The squares `c` and `n` touch.
pub open spec fn adjacent_cells(c: (usize, usize), n: (usize, usize)) -> bool {
    touches(n.0 as int, n.1 as int, c.0 as int, c.1 as int)
}

/// In the opening of `(x, y)` on `s`, `t` has opened `c`: it is `(x, y)`, or
/// closed on `s` and open on `t`.
pub open spec fn marked(t: Board, s: Board, x: int, y: int, c: (int, int)) -> bool {
    (c.0 == x && c.1 == y) || (t.field(c.0, c.1).is_clicked && !s.field(c.0, c.1).is_clicked)
}

/// The closed squares of `t`.
pub open spec fn closed_at(t: Board) -> spec_fn(int, int) -> bool {
    |a: int, b: int| !t.field(a, b).is_clicked
}

/// Once every square the opening started from is open, and around every opened
/// square that shows 0 every square is open, each square the opening reaches is
/// open.
proof fn lemma_flood_complete(s: Board, t: Board, x: int, y: int, path: Seq<(int, int)>)
    requires
        flood_path(s, x, y, path),
        in_grid(x, y, s.dim()),
        s.dim() == t.dim(),
        t.field(x, y).is_clicked,
        forall|a: int, b: int|
            in_grid(a, b, s.dim()) && flood_start(s, x, y, (a, b)) ==> (#[trigger] t.field(
                a,
                b,
            )).is_clicked,
        forall|a: int, b: int, u: int, v: int|
            #![trigger touches(u, v, a, b)]
            in_grid(a, b, s.dim()) && in_grid(u, v, s.dim()) && touches(u, v, a, b) && marked(
                t,
                s,
                x,
                y,
                (a, b),
            ) && s.field(a, b).value == 0 ==> t.field(u, v).is_clicked,
    ensures
        t.field(path.last().0, path.last().1).is_clicked,
        marked(t, s, x, y, path.last()),
        in_grid(path.last().0, path.last().1, s.dim()),
    decreases path.len(),
{
    if path.len() > 1 {
        let p = path.drop_last();
        assert forall|i: int| 0 <= i < p.len() - 1 implies #[trigger] step_holds(s, x, y, p, i) by {
            assert(step_holds(s, x, y, path, i));
        }
        assert(flood_path(s, x, y, p));
        lemma_flood_complete(s, t, x, y, p);
        assert(step_holds(s, x, y, path, path.len() - 2));
        let a = p.last();
        let n = path.last();
        assert(touches(n.0, n.1, a.0, a.1));
    } else {
        assert(flood_start(s, x, y, path[0]));
    }
}

/// The state of the opening of `(x, y)` on `s` while `t` works through the
/// queue `q`: the squares `seen` have been taken off the queue, and around
/// those of `done` that show 0 every square is open.
spec fn spreading(
    t: Board,
    s: Board,
    x: int,
    y: int,
    q: Seq<(usize, usize)>,
    seen: Seq<(usize, usize)>,
    done: Seq<(usize, usize)>,
) -> bool {
    let dim = s.dim();
    let pos = t.bad_guy.position;
    &&& t.wf()
    &&& s.wf()
    &&& t.dim() == dim
    &&& in_grid(x, y, dim)
    &&& t.same_but_fields(
        Board { bad_guy: BadGuy { is_active: t.bad_guy.is_active, ..s.bad_guy }, ..s },
    )
    &&& t.field(x, y).is_clicked
    &&& forall|a: int, b: int|
        in_grid(a, b, dim) ==> {
            &&& (#[trigger] t.field(a, b)).value == s.field(a, b).value
            &&& t.field(a, b).is_flagged == s.field(a, b).is_flagged
            &&& s.field(a, b).is_clicked ==> t.field(a, b).is_clicked
            &&& t.field(a, b).is_clicked && !s.field(a, b).is_clicked ==> flooded(s, x, y, (a, b))
            &&& flood_start(s, x, y, (a, b)) ==> t.field(a, b).is_clicked
            &&& marked(t, s, x, y, (a, b)) ==> q.contains((a as usize, b as usize)) || seen.contains(
                (a as usize, b as usize),
            )
        }
    &&& forall|c: (usize, usize)|
        #[trigger] q.contains(c) ==> in_grid(c.0 as int, c.1 as int, dim) && marked(
            t,
            s,
            x,
            y,
            (c.0 as int, c.1 as int),
        )
    &&& forall|c: (usize, usize)|
        #[trigger] seen.contains(c) ==> in_grid(c.0 as int, c.1 as int, dim) && marked(
            t,
            s,
            x,
            y,
            (c.0 as int, c.1 as int),
        )
    &&& forall|c: (usize, usize), n: (usize, usize)|
        #![trigger done.contains(c), adjacent_cells(c, n)]
        done.contains(c) && s.field(c.0 as int, c.1 as int).value == 0 && in_grid(
            n.0 as int,
            n.1 as int,
            dim,
        ) && adjacent_cells(c, n) ==> t.field(n.0 as int, n.1 as int).is_clicked
    &&& done.contains(pos) ==> t.bad_guy.is_active == (s.click_counter != 0)
    &&& !done.contains(pos) ==> t.bad_guy.is_active == s.bad_guy.is_active
}

/// With no unflagged mine around `(x, y)`, the squares opened first around it
/// are the closed squares there without a mine.
proof fn lemma_early_all(s: Board, x: int, y: int, a: int, b: int)
    requires
        in_grid(a, b, s.dim()),
        s.dim() <= 126,
        first_bad(s, x, y) == neighbors(x, y, s.dim()).len(),
    ensures
        early_opened(s, x, y, a, b) <==> touches(a, b, x, y) && !s.field(a, b).is_clicked
            && !s.is_mine(a, b),
{
    lemma_neighbors_exact(x, y, s.dim());
    let all = neighbors(x, y, s.dim());
    if touches(a, b, x, y) && !s.field(a, b).is_clicked && !s.is_mine(a, b) {
        assert(all.contains((a as usize, b as usize)));
        let i = choose|i: int| 0 <= i < all.len() && all[i] == (a as usize, b as usize);
        assert(all[i] == (a as usize, b as usize));
    }
    if early_opened(s, x, y, a, b) {
        let i = choose|i: int|
            0 <= i < first_bad(s, x, y) && #[trigger] all[i] == (a as usize, b as usize)
                && !s.field(a, b).is_clicked && !s.is_mine(a, b);
        assert(touches(all[i].0 as int, all[i].1 as int, x, y));
    }
}

/// The squares opened first around `(x, y)` depend only on the squares around it.
proof fn lemma_early_same(s1: Board, s2: Board, x: int, y: int, a: int, b: int)
    requires
        s1.dim() == s2.dim(),
        s1.dim() <= 126,
        in_grid(x, y, s1.dim()),
        in_grid(a, b, s1.dim()),
        forall|u: int, v: int|
            in_grid(u, v, s1.dim()) && (u != x || v != y) ==> #[trigger] s1.field(u, v) == s2.field(
                u,
                v,
            ),
    ensures
        first_bad(s1, x, y) == first_bad(s2, x, y),
        early_opened(s1, x, y, a, b) == early_opened(s2, x, y, a, b),
{
    lemma_neighbors_exact(x, y, s1.dim());
    let all = neighbors(x, y, s1.dim());
    assert forall|i: int| 0 <= i < all.len() implies bad_at(s1, #[trigger] all[i]) == bad_at(
        s2,
        all[i],
    ) by {
        let c = all[i];
        assert(s1.field(c.0 as int, c.1 as int) == s2.field(c.0 as int, c.1 as int));
    }
    lemma_first_bad_same(s1, s2, all, 0);
    if early_opened(s1, x, y, a, b) {
        lemma_first_bad_bound(s1, all, 0);
        let i = choose|i: int|
            0 <= i < first_bad(s1, x, y) && #[trigger] all[i] == (a as usize, b as usize)
                && !s1.field(a, b).is_clicked && !s1.is_mine(a, b);
        let c = all[i];
        assert(s1.field(c.0 as int, c.1 as int) == s2.field(c.0 as int, c.1 as int));
        assert(first_bad_from(s1, all, 0) <= all.len()) by {
            lemma_first_bad_bound(s1, all, 0);
        }
    }
    if early_opened(s2, x, y, a, b) {
        lemma_first_bad_bound(s2, all, 0);
        let i = choose|i: int|
            0 <= i < first_bad(s2, x, y) && #[trigger] all[i] == (a as usize, b as usize)
                && !s2.field(a, b).is_clicked && !s2.is_mine(a, b);
        let c = all[i];
        assert(s1.field(c.0 as int, c.1 as int) == s2.field(c.0 as int, c.1 as int));
        assert(first_bad_from(s2, all, 0) <= all.len()) by {
            lemma_first_bad_bound(s2, all, 0);
        }
    }
}

proof fn lemma_first_bad_bound(s: Board, cells: Seq<(usize, usize)>, i: int)
    requires
        0 <= i,
    ensures
        first_bad_from(s, cells, i) <= cells.len(),
        i <= cells.len() ==> i <= first_bad_from(s, cells, i),
    decreases cells.len() - i,
{
    if i < cells.len() && !bad_at(s, cells[i]) {
        lemma_first_bad_bound(s, cells, i + 1);
    }
}

proof fn lemma_first_bad_same(s1: Board, s2: Board, cells: Seq<(usize, usize)>, i: int)
    requires
        0 <= i,
        forall|j: int| 0 <= j < cells.len() ==> bad_at(s1, #[trigger] cells[j]) == bad_at(s2, cells[j]),
    ensures
        first_bad_from(s1, cells, i) == first_bad_from(s2, cells, i),
    decreases cells.len() - i,
{
    if i < cells.len() {
        lemma_first_bad_same(s1, s2, cells, i + 1);
    }
}

/// Around a square without a mine that shows 0 on a board whose squares show
/// their counts, no mine lies, so none goes off when it is opened.
pub proof fn lemma_zero_has_no_bad_neighbor(s: Board, x: int, y: int)
    requires
        s.wf(),
        in_grid(x, y, s.dim()),
        s.values_consistent(),
        !s.is_mine(x, y),
        s.field(x, y).value == 0,
    ensures
        first_bad(s, x, y) == neighbors(x, y, s.dim()).len(),
        forall|a: int, b: int| in_grid(a, b, s.dim()) && touches(a, b, x, y) ==> !#[trigger] s.is_mine(a, b),
{
    let all = neighbors(x, y, s.dim());
    lemma_neighbors_exact(x, y, s.dim());
    lemma_count_cells_zero(all, s.mine_at());
    assert forall|i: int| 0 <= i < all.len() implies !bad_at(s, #[trigger] all[i]) by {
        assert(!s.mine_at()(all[i].0 as int, all[i].1 as int));
    }
    lemma_no_bad_from(s, all, 0);
    assert forall|a: int, b: int| in_grid(a, b, s.dim()) && touches(a, b, x, y) implies !#[trigger] s.is_mine(a, b) by {
        assert(all.contains((a as usize, b as usize)));
        let i = choose|i: int| 0 <= i < all.len() && all[i] == (a as usize, b as usize);
        assert(!s.mine_at()(all[i].0 as int, all[i].1 as int));
    }
}

proof fn lemma_no_bad_from(s: Board, cells: Seq<(usize, usize)>, i: int)
    requires
        0 <= i,
        forall|j: int| 0 <= j < cells.len() ==> !bad_at(s, #[trigger] cells[j]),
    ensures
        i <= cells.len() ==> first_bad_from(s, cells, i) == cells.len(),
    decreases cells.len() - i,
{
    if i < cells.len() {
        lemma_no_bad_from(s, cells, i + 1);
    }
}

/// Once the mines are laid with `(x, y)` kept clear, `(x, y)` holds no mine and
/// shows 0.
pub proof fn lemma_clear_start(s: Board, x: int, y: int)
    requires
        s.wf(),
        in_grid(x, y, s.dim()),
        s.freshly_laid(Some((x as usize, y as usize))),
    ensures
        !s.is_mine(x, y),
        s.field(x, y).value == 0,
        s.values_consistent(),
{
    let all = neighbors(x, y, s.dim());
    lemma_neighbors_exact(x, y, s.dim());
    assert(kept_clear(Some((x as usize, y as usize)), x, y));
    assert forall|i: int| 0 <= i < all.len() implies !s.mine_at()(
        #[trigger] all[i].0 as int,
        all[i].1 as int,
    ) by {
        let c = all[i];
        assert(kept_clear(Some((x as usize, y as usize)), c.0 as int, c.1 as int));
    }
    lemma_count_cells_zero(all, s.mine_at());
}

/// Every square of the board without a mine has been opened.
pub open spec fn cleared(b: Board) -> bool {
    forall|x: int, y: int|
        in_grid(x, y, b.dim()) ==> (#[trigger] b.field(x, y)).is_clicked || b.is_mine(x, y)
}

/// The squares of `t` are those of `s`, with the squares in `opened` opened.
pub open spec fn only_opened(s: Board, t: Board, opened: spec_fn(int, int) -> bool) -> bool {
    forall|a: int, b: int|
        in_grid(a, b, s.dim()) ==> #[trigger] t.field(a, b) == (Field {
            is_clicked: s.field(a, b).is_clicked || opened(a, b),
            ..s.field(a, b)
        })
}

/// The cells of `cells` are exactly the mines of `b`.
pub open spec fn lists_mines(b: Board, cells: Seq<(usize, usize)>) -> bool {
    forall|a: usize, c: usize|
        #![trigger cells.contains((a, c))]
        cells.contains((a, c)) <==> in_grid(a as int, c as int, b.dim()) && b.is_mine(a as int, c as int)
}

impl Board {
    /// The board after every mine is shown: the game is over, and every mine
    /// square is repainted.
    pub open spec fn mines_revealed(self) -> Board {
        let p = self.bad_guy.position;
        Board {
            game_over: true,
            bad_guy: BadGuy {
                is_active: if self.is_mine(p.0 as int, p.1 as int) {
                    self.click_counter != 0
                } else {
                    self.bad_guy.is_active
                },
                ..self.bad_guy
            },
            ..self
        }
    }

    /// Ends the game and repaints every mine; returns the repainted squares.
    fn reveal_all_mines(&mut self) -> (repaint: Vec<(usize, usize)>)
        requires
            old(self).wf(),
        ensures
            final(self).wf(),
            final(self).same_but_fields(old(self).mines_revealed()),
            only_opened(*old(self), *final(self), |a: int, b: int| false),
            lists_mines(*old(self), repaint@),
    {
        self.game_over = true;
        let ghost start = *self;
        let ghost dim = self.dim();
        let ghost pos = index_of(
            self.bad_guy.position.0 as int,
            self.bad_guy.position.1 as int,
            dim,
        );
        proof {
            lemma_square_fits(dim);
            lemma_walk_covers_grid(dim);
        }
        let mut repaint: Vec<(usize, usize)> = Vec::new();
        let mut gen = FieldGenerator::new(self.dimension);
        loop
            invariant
                self.wf(),
                dim == self.dim(),
                gen.dim() == self.dimension,
                gen.step() <= dim * dim,
                dim * dim <= 126 * 126,
                0 <= pos < dim * dim,
                start.wf(),
                start.dim() == dim,
                start == (Board { game_over: true, ..*old(self) }),
                self.same_but_fields(
                    Board {
                        bad_guy: BadGuy { is_active: self.bad_guy.is_active, ..start.bad_guy },
                        ..start
                    },
                ),
                forall|a: int, b: int|
                    in_grid(a, b, dim) ==> #[trigger] self.field(a, b) == start.field(a, b),
                pos == index_of(
                    self.bad_guy.position.0 as int,
                    self.bad_guy.position.1 as int,
                    dim,
                ),
                pos < gen.step() ==> self.bad_guy.is_active == (if start.is_mine(
                    self.bad_guy.position.0 as int,
                    self.bad_guy.position.1 as int,
                ) {
                    self.click_counter != 0
                } else {
                    start.bad_guy.is_active
                }),
                pos >= gen.step() ==> self.bad_guy.is_active == start.bad_guy.is_active,
                forall|a: usize, c: usize|
                    #![trigger repaint@.contains((a, c))]
                    repaint@.contains((a, c)) <==> in_grid(a as int, c as int, dim) && index_of(
                        a as int,
                        c as int,
                        dim,
                    ) < gen.step() && start.is_mine(a as int, c as int),
                walk_fits_grid(dim),
            decreases dim * dim - gen.step(),
        {
            let ghost k = gen.step() as int;
            match gen.next() {
                Some((x, y)) => {
                    assert(cell_of(k, dim) == (x, y));
                    assert(index_of(x as int, y as int, dim) == k);
                    let ghost before = repaint@;
                    let ghost board_before = *self;
                    if self.is_mine_on_field(x, y) {
                        self.change_pixbuf(x, y);
                        repaint.push((x, y));
                    }
                    proof {
                        assert(self.fields == board_before.fields);
                        assert forall|a: int, b: int| in_grid(a, b, dim) implies #[trigger] self.field(
                            a,
                            b,
                        ) == start.field(a, b) by {
                            assert(board_before.field(a, b) == start.field(a, b));
                        }
                        assert forall|a: usize, c: usize|
                            #![trigger repaint@.contains((a, c))]
                            repaint@.contains((a, c)) <==> in_grid(a as int, c as int, dim)
                                && index_of(a as int, c as int, dim) < k + 1 && start.is_mine(
                                a as int,
                                c as int,
                            ) by {
                            lemma_push_contains(before, (x, y), (a, c));
                            if in_grid(a as int, c as int, dim) && index_of(a as int, c as int, dim)
                                == k {
                                assert(cell_of(index_of(a as int, c as int, dim), dim) == (a, c));
                            }
                            if a == x && c == y {
                                assert(index_of(a as int, c as int, dim) == k);
                            }
                        }
                        if pos == k {
                            assert(cell_of(pos, dim) == (x, y));
                        }
                    }
                },
                None => {
                    return repaint;
                },
            }
        }
    }

    /// Tells whether every square without a mine has been opened.
    fn all_cleared(&self) -> (r: bool)
        requires
            self.wf(),
        ensures
            r == cleared(*self),
    {
        let ghost dim = self.dim();
        proof {
            lemma_square_fits(dim);
            lemma_walk_covers_grid(dim);
        }
        let mut flag = true;
        let mut gen = FieldGenerator::new(self.dimension);
        loop
            invariant
                self.wf(),
                dim == self.dim(),
                gen.dim() == self.dimension,
                gen.step() <= dim * dim,
                dim * dim <= 126 * 126,
                flag == (forall|k: int|
                    0 <= k < gen.step() ==> {
                        let c = #[trigger] cell_of(k, dim);
                        self.field(c.0 as int, c.1 as int).is_clicked || self.is_mine(
                            c.0 as int,
                            c.1 as int,
                        )
                    }),
                walk_fits_grid(dim),
            decreases dim * dim - gen.step(),
        {
            let ghost k = gen.step() as int;
            match gen.next() {
                Some((x, y)) => {
                    assert(cell_of(k, dim) == (x, y));
                    if !self.fields[x][y].is_clicked && !self.is_mine_on_field(x, y) {
                        flag = false;
                    }
                },
                None => {
                    proof {
                        if flag {
                            assert forall|a: int, b: int| in_grid(a, b, dim) implies (
                            #[trigger] self.field(a, b)).is_clicked || self.is_mine(a, b) by {
                                assert(cell_of(index_of(a, b, dim), dim) == (a as usize, b as usize));
                            }
                        } else {
                            let k = choose|k: int|
                                0 <= k < gen.step() && !{
                                    let c = #[trigger] cell_of(k, dim);
                                    self.field(c.0 as int, c.1 as int).is_clicked || self.is_mine(
                                        c.0 as int,
                                        c.1 as int,
                                    )
                                };
                            let c = cell_of(k, dim);
                            assert(in_grid(c.0 as int, c.1 as int, dim));
                        }
                    }
                    return flag;
                },
            }
        }
    }

    /// Opens and queues, in the order of the walk, the closed squares without a
    /// mine around `(x, y)`, up to the first unflagged mine; tells whether there
    /// was one.
    fn open_around(&mut self, x: usize, y: usize, queue: &mut VecDeque<(usize, usize)>) -> (hit: bool)
        requires
            old(self).wf(),
            x < old(self).dimension,
            y < old(self).dimension,
        ensures
            final(self).wf(),
            final(self).same_but_fields(*old(self)),
            hit == (first_bad(*old(self), x as int, y as int) < neighbors(
                x as int,
                y as int,
                old(self).dim(),
            ).len()),
            only_opened(
                *old(self),
                *final(self),
                |a: int, b: int| early_opened(*old(self), x as int, y as int, a, b),
            ),
            forall|c: (usize, usize)|
                #[trigger] final(queue)@.contains(c) <==> old(queue)@.contains(c) || (in_grid(
                    c.0 as int,
                    c.1 as int,
                    old(self).dim(),
                ) && early_opened(*old(self), x as int, y as int, c.0 as int, c.1 as int)),
    {
        let ghost s = *self;
        let ghost q0 = queue@;
        let ghost dim = self.dim();
        let ghost all = neighbors(x as int, y as int, dim);
        proof {
            lemma_neighbors_exact(x as int, y as int, dim);
        }
        let mut adj = Adjacent::new(self.dimension, x, y);
        let ghost mut taken: int = 0;
        loop
            invariant
                self.wf(),
                s.wf(),
                s == *old(self),
                q0 == old(queue)@,
                dim == self.dim(),
                dim == s.dim(),
                x < self.dimension,
                y < self.dimension,
                self.same_but_fields(s),
                adj.wf(),
                adj.dim() == dim,
                all == neighbors(x as int, y as int, dim),
                0 <= taken <= all.len(),
                all.len() <= 8,
                all.no_duplicates(),
                forall|i: int| 0 <= i < all.len() ==> {
                    let c = #[trigger] all[i];
                    in_grid(c.0 as int, c.1 as int, dim)
                },
                adj.remaining() == all.skip(taken),
                first_bad_from(s, all, taken) == first_bad(s, x as int, y as int),
                only_opened(s, *self, |a: int, b: int| opened_upto(s, x as int, y as int, taken, a, b)),
                forall|c: (usize, usize)|
                    #[trigger] queue@.contains(c) <==> q0.contains(c) || (in_grid(
                        c.0 as int,
                        c.1 as int,
                        dim,
                    ) && opened_upto(s, x as int, y as int, taken, c.0 as int, c.1 as int)),
            decreases all.len() - taken,
        {
            match adj.next() {
                Some((a, b)) => {
                    assert(all[taken] == (a, b));
                    assert(in_grid(a as int, b as int, dim));
                    proof {
                        if opened_upto(s, x as int, y as int, taken, a as int, b as int) {
                            let i = choose|i: int|
                                0 <= i < taken && #[trigger] all[i] == (a, b)
                                    && !s.field(a as int, b as int).is_clicked && !s.is_mine(
                                    a as int,
                                    b as int,
                                );
                            assert(all[i] == all[taken]);
                        }
                        assert(self.field(a as int, b as int) == s.field(a as int, b as int));
                    }
                    if !self.fields[a][b].is_clicked && !self.is_mine_on_field(a, b) {
                        let ghost before = queue@;
                        queue.push_back((a, b));
                        let f = self.fields[a][b];
                        let ghost mid = *self;
                        self.set_field(a, b, Field { is_clicked: true, ..f });
                        proof {
                            assert forall|u: int, v: int|
                                in_grid(u, v, dim) implies opened_upto(s, x as int, y as int, taken + 1, u, v) <==> opened_upto(
                                    s,
                                    x as int,
                                    y as int,
                                    taken,
                                    u,
                                    v,
                                ) || (u == a && v == b) by {
                                if u == a && v == b {
                                    assert(all[taken] == (u as usize, v as usize));
                                }
                                if opened_upto(s, x as int, y as int, taken + 1, u, v) && !(u == a
                                    && v == b) {
                                    let i = choose|i: int|
                                        0 <= i < taken + 1 && #[trigger] all[i] == (
                                            u as usize,
                                            v as usize,
                                        ) && !s.field(u, v).is_clicked && !s.is_mine(u, v);
                                    if i == taken {
                                        assert(u as usize == a && v as usize == b);
                                    }
                                }
                                if opened_upto(s, x as int, y as int, taken, u, v) {
                                    let i = choose|i: int|
                                        0 <= i < taken && #[trigger] all[i] == (
                                            u as usize,
                                            v as usize,
                                        ) && !s.field(u, v).is_clicked && !s.is_mine(u, v);
                                    assert(all[i] == (u as usize, v as usize));
                                }
                            }
                            assert forall|u: int, v: int| in_grid(u, v, dim) implies #[trigger] self.field(
                                u,
                                v,
                            ) == (Field {
                                is_clicked: s.field(u, v).is_clicked || opened_upto(
                                    s,
                                    x as int,
                                    y as int,
                                    taken + 1,
                                    u,
                                    v,
                                ),
                                ..s.field(u, v)
                            }) by {
                                if u != a || v != b {
                                    assert(self.field(u, v) == mid.field(u, v));
                                }
                            }
                            assert forall|c: (usize, usize)|
                                #[trigger] queue@.contains(c) <==> q0.contains(c) || (in_grid(
                                    c.0 as int,
                                    c.1 as int,
                                    dim,
                                ) && opened_upto(
                                    s,
                                    x as int,
                                    y as int,
                                    taken + 1,
                                    c.0 as int,
                                    c.1 as int,
                                )) by {
                                lemma_push_contains(before, (a, b), c);
                            }
                        }
                    } else if self.is_mine_on_field(a, b) && !self.fields[a][b].is_flagged {
                        return true;
                    }
                    proof {
                        assert(!bad_at(s, all[taken]));
                        taken = taken + 1;
                        assert(adj.remaining() == all.skip(taken));
                    }
                },
                None => {
                    assert(all.skip(taken).len() == 0);
                    return false;
                },
            }
        }
    }

    /// Works through the queue: each square taken off it is repainted, and
    /// around each that shows 0 every closed square is opened and queued.
    /// Returns the repainted squares, in order.
    fn spread(
        &mut self,
        queue: &mut VecDeque<(usize, usize)>,
        Ghost(s): Ghost<Board>,
        x: usize,
        y: usize,
    ) -> (repaint: Vec<(usize, usize)>)
        requires
            spreading(*old(self), s, x as int, y as int, old(queue)@, seq![], seq![]),
        ensures
            final(self).wf(),
            only_opened(s, *final(self), |a: int, b: int| flooded(s, x as int, y as int, (a, b))),
            forall|c: (usize, usize)|
                #[trigger] repaint@.contains(c) <==> in_grid(c.0 as int, c.1 as int, s.dim())
                    && flooded(s, x as int, y as int, (c.0 as int, c.1 as int)),
            final(self).same_but_fields(
                Board {
                    bad_guy: BadGuy {
                        is_active: if flooded(
                            s,
                            x as int,
                            y as int,
                            (s.bad_guy.position.0 as int, s.bad_guy.position.1 as int),
                        ) {
                            s.click_counter != 0
                        } else {
                            s.bad_guy.is_active
                        },
                        ..s.bad_guy
                    },
                    ..s
                },
            ),
    {
        let ghost dim = s.dim();
        proof {
            lemma_square_fits(dim);
        }
        let mut repaint: Vec<(usize, usize)> = Vec::new();
        loop
            invariant
                spreading(*self, s, x as int, y as int, queue@, repaint@, repaint@),
                dim == s.dim(),
                dim * dim <= 126 * 126,
            decreases queue@.len() + count_walk(closed_at(*self), dim, dim * dim),
        {
            let ghost q0 = queue@;
            let ghost r0 = repaint@;
            let ghost budget = queue@.len() + count_walk(closed_at(*self), dim, dim * dim);
            match queue.pop_front() {
                Some((cx, cy)) => {
                    proof {
                        assert(q0.contains((cx, cy))) by {
                            assert(q0[0] == (cx, cy));
                        }
                        assert forall|c: (usize, usize)| #[trigger] queue@.contains(c) implies in_grid(
                            c.0 as int,
                            c.1 as int,
                            dim,
                        ) && marked(*self, s, x as int, y as int, (c.0 as int, c.1 as int)) by {
                            lemma_pop_contains(q0, c);
                            assert(q0.contains(c));
                        }
                        assert forall|c: (usize, usize)| #[trigger] r0.push((cx, cy)).contains(c) implies in_grid(
                            c.0 as int,
                            c.1 as int,
                            dim,
                        ) && marked(*self, s, x as int, y as int, (c.0 as int, c.1 as int)) by {
                            lemma_push_contains(r0, (cx, cy), c);
                        }
                        assert forall|a: int, b: int|
                            in_grid(a, b, dim) && marked(*self, s, x as int, y as int, (a, b)) implies queue@.contains(
                            (a as usize, b as usize),
                        ) || r0.push((cx, cy)).contains((a as usize, b as usize)) by {
                            lemma_pop_contains(q0, (a as usize, b as usize));
                            lemma_push_contains(r0, (cx, cy), (a as usize, b as usize));
                        }
                        assert(spreading(
                            *self,
                            s,
                            x as int,
                            y as int,
                            queue@,
                            r0.push((cx, cy)),
                            r0,
                        ));
                    }
                    let value = self.fields[cx][cy].value;
                    if value == 0 {
                        let ghost all = neighbors(cx as int, cy as int, dim);
                        proof {
                            lemma_neighbors_exact(cx as int, cy as int, dim);
                        }
                        let mut adj = Adjacent::new(self.dimension, cx, cy);
                        let ghost mut taken: int = 0;
                        loop
                            invariant
                                spreading(
                                    *self,
                                    s,
                                    x as int,
                                    y as int,
                                    queue@,
                                    r0.push((cx, cy)),
                                    r0,
                                ),
                                dim == s.dim(),
                                dim * dim <= 126 * 126,
                                in_grid(cx as int, cy as int, dim),
                                marked(*self, s, x as int, y as int, (cx as int, cy as int)),
                                s.field(cx as int, cy as int).value == 0,
                                adj.wf(),
                                adj.dim() == dim,
                                all == neighbors(cx as int, cy as int, dim),
                                0 <= taken <= all.len(),
                                forall|i: int| 0 <= i < all.len() ==> {
                                    let c = #[trigger] all[i];
                                    in_grid(c.0 as int, c.1 as int, dim) && touches(
                                        c.0 as int,
                                        c.1 as int,
                                        cx as int,
                                        cy as int,
                                    )
                                },
                                forall|a: int, b: int|
                                    in_grid(a, b, dim) && touches(a, b, cx as int, cy as int)
                                        ==> all.contains((a as usize, b as usize)),
                                adj.remaining() == all.skip(taken),
                                forall|i: int|
                                    0 <= i < taken ==> self.field(
                                        (#[trigger] all[i]).0 as int,
                                        all[i].1 as int,
                                    ).is_clicked,
                                queue@.len() + count_walk(closed_at(*self), dim, dim * dim) + 1
                                    == budget,
                            ensures
                                spreading(
                                    *self,
                                    s,
                                    x as int,
                                    y as int,
                                    queue@,
                                    r0.push((cx, cy)),
                                    r0,
                                ),
                                forall|i: int|
                                    0 <= i < all.len() ==> self.field(
                                        (#[trigger] all[i]).0 as int,
                                        all[i].1 as int,
                                    ).is_clicked,
                                queue@.len() + count_walk(closed_at(*self), dim, dim * dim) + 1
                                    == budget,
                            decreases all.len() - taken,
                        {
                            match adj.next() {
                                Some((a, b)) => {
                                    assert(all[taken] == (a, b));
                                    if !self.fields[a][b].is_clicked {
                                        let ghost tq = queue@;
                                        let ghost before = *self;
                                        queue.push_back((a, b));
                                        let f = self.fields[a][b];
                                        self.set_field(a, b, Field { is_clicked: true, ..f });
                                        proof {
                                            lemma_count_walk_change(
                                                closed_at(before),
                                                closed_at(*self),
                                                dim,
                                                dim * dim,
                                                a as int,
                                                b as int,
                                            );
                                            lemma_walk_covers_grid(dim);
                                            assert(flooded(s, x as int, y as int, (cx as int, cy as int))) by {
                                                if cx as int == x && cy as int == y {
                                                    lemma_flood_start(s, x as int, y as int, (cx as int, cy as int));
                                                }
                                            }
                                            assert(flood_step(s, x as int, y as int, (cx as int, cy as int), (a as int, b as int)));
                                            lemma_flood_extend(s, x as int, y as int, (cx as int, cy as int), (a as int, b as int));
                                            assert forall|u: int, v: int|
                                                in_grid(u, v, dim) && (u != a || v != b) implies #[trigger] self.field(u, v)
                                                    == before.field(u, v) by {}
                                            assert forall|c: (usize, usize)| #[trigger] queue@.contains(c) implies in_grid(
                                                c.0 as int,
                                                c.1 as int,
                                                dim,
                                            ) && marked(*self, s, x as int, y as int, (c.0 as int, c.1 as int)) by {
                                                lemma_push_contains(tq, (a, b), c);
                                                if c != (a, b) {
                                                    assert(tq.contains(c));
                                                    assert(marked(before, s, x as int, y as int, (c.0 as int, c.1 as int)));
                                                }
                                            }
                                            assert forall|c: (usize, usize)| #[trigger] r0.push((cx, cy)).contains(c) implies in_grid(
                                                c.0 as int,
                                                c.1 as int,
                                                dim,
                                            ) && marked(*self, s, x as int, y as int, (c.0 as int, c.1 as int)) by {
                                                assert(marked(before, s, x as int, y as int, (c.0 as int, c.1 as int)));
                                            }
                                            assert forall|u: int, v: int|
                                                in_grid(u, v, dim) && marked(*self, s, x as int, y as int, (u, v)) implies queue@.contains(
                                                (u as usize, v as usize),
                                            ) || r0.push((cx, cy)).contains((u as usize, v as usize)) by {
                                                lemma_push_contains(tq, (a, b), (u as usize, v as usize));
                                                if u != a || v != b {
                                                    assert(before.field(u, v) == self.field(u, v));
                                                }
                                            }
                                            assert forall|c: (usize, usize), n: (usize, usize)|
                                                #![trigger r0.contains(c), adjacent_cells(c, n)]
                                                r0.contains(c) && s.field(c.0 as int, c.1 as int).value == 0 && in_grid(
                                                    n.0 as int,
                                                    n.1 as int,
                                                    dim,
                                                ) && adjacent_cells(c, n) implies self.field(n.0 as int, n.1 as int).is_clicked by {
                                                assert(before.field(n.0 as int, n.1 as int).is_clicked);
                                            }
                                            assert(spreading(
                                                *self,
                                                s,
                                                x as int,
                                                y as int,
                                                queue@,
                                                r0.push((cx, cy)),
                                                r0,
                                            ));
                                        }
                                    }
                                    proof {
                                        taken = taken + 1;
                                        assert(adj.remaining() == all.skip(taken));
                                    }
                                },
                                None => {
                                    assert(all.skip(taken).len() == 0);
                                    break;
                                },
                            }
                        }
                        proof {
                            assert forall|c: (usize, usize), n: (usize, usize)|
                                #![trigger r0.push((cx, cy)).contains(c), adjacent_cells(c, n)]
                                r0.push((cx, cy)).contains(c) && s.field(c.0 as int, c.1 as int).value
                                    == 0 && in_grid(n.0 as int, n.1 as int, dim) && adjacent_cells(
                                    c,
                                    n,
                                ) implies self.field(n.0 as int, n.1 as int).is_clicked by {
                                lemma_push_contains(r0, (cx, cy), c);
                                if c == (cx, cy) {
                                    assert(all.contains((n.0 as int as usize, n.1 as int as usize)));
                                    let i = choose|i: int| 0 <= i < all.len() && all[i] == n;
                                    assert(self.field(all[i].0 as int, all[i].1 as int).is_clicked);
                                } else {
                                    assert(r0.contains(c));
                                }
                            }
                        }
                    } else {
                        proof {
                            assert forall|c: (usize, usize), n: (usize, usize)|
                                #![trigger r0.push((cx, cy)).contains(c), adjacent_cells(c, n)]
                                r0.push((cx, cy)).contains(c) && s.field(c.0 as int, c.1 as int).value
                                    == 0 && in_grid(n.0 as int, n.1 as int, dim) && adjacent_cells(
                                    c,
                                    n,
                                ) implies self.field(n.0 as int, n.1 as int).is_clicked by {
                                lemma_push_contains(r0, (cx, cy), c);
                                if c != (cx, cy) {
                                    assert(r0.contains(c));
                                }
                            }
                        }
                    }
                    assert(queue@.len() + count_walk(closed_at(*self), dim, dim * dim) < budget);
                    let ghost before = *self;
                    self.change_pixbuf(cx, cy);
                    repaint.push((cx, cy));
                    proof {
                        assert(self.fields == before.fields);
                        assert forall|a: int, b: int| in_grid(a, b, dim) implies #[trigger] self.field(a, b)
                            == before.field(a, b) by {}
                        assert(closed_at(*self) =~= closed_at(before));
                        lemma_push_contains(r0, (cx, cy), self.bad_guy.position);
                        assert(spreading(*self, s, x as int, y as int, queue@, repaint@, repaint@));
                        assert(queue@.len() + count_walk(closed_at(*self), dim, dim * dim) < budget);
                    }
                },
                None => {
                    proof {
                        assert forall|a: int, b: int|
                            in_grid(a, b, dim) && flooded(s, x as int, y as int, (a, b)) implies (#[trigger] self.field(
                                a,
                                b,
                            )).is_clicked && marked(*self, s, x as int, y as int, (a, b)) by {
                            let path = choose|path: Seq<(int, int)>|
                                #[trigger] flood_path(s, x as int, y as int, path) && path.last() == (a, b);
                            assert forall|a2: int, b2: int, u: int, v: int|
                                #![trigger touches(u, v, a2, b2)]
                                in_grid(a2, b2, dim) && in_grid(u, v, dim) && touches(u, v, a2, b2)
                                    && marked(*self, s, x as int, y as int, (a2, b2)) && s.field(
                                    a2,
                                    b2,
                                ).value == 0 implies self.field(u, v).is_clicked by {
                                assert(self.field(a2, b2).value == s.field(a2, b2).value);
                                assert(repaint@.contains((a2 as usize, b2 as usize)));
                                assert(adjacent_cells((a2 as usize, b2 as usize), (u as usize, v as usize)));
                            }
                            lemma_flood_complete(s, *self, x as int, y as int, path);
                        }
                        assert forall|c: (usize, usize)|
                            #[trigger] repaint@.contains(c) <==> in_grid(c.0 as int, c.1 as int, s.dim())
                                && flooded(s, x as int, y as int, (c.0 as int, c.1 as int)) by {
                            if repaint@.contains(c) {
                                if c.0 as int == x && c.1 as int == y {
                                    lemma_flood_start(s, x as int, y as int, (x as int, y as int));
                                } else {
                                    assert(self.field(c.0 as int, c.1 as int).value == s.field(
                                        c.0 as int,
                                        c.1 as int,
                                    ).value);
                                }
                            }
                            if in_grid(c.0 as int, c.1 as int, s.dim()) && flooded(
                                s,
                                x as int,
                                y as int,
                                (c.0 as int, c.1 as int),
                            ) {
                                assert(self.field(c.0 as int, c.1 as int).is_clicked);
                            }
                        }
                        let pos = s.bad_guy.position;
                        assert(repaint@.contains(pos) == flooded(
                            s,
                            x as int,
                            y as int,
                            (pos.0 as int, pos.1 as int),
                        ));
                        assert forall|a: int, b: int| in_grid(a, b, dim) implies #[trigger] self.field(a, b)
                            == (Field {
                            is_clicked: s.field(a, b).is_clicked || flooded(s, x as int, y as int, (a, b)),
                            ..s.field(a, b)
                        }) by {
                            if self.field(a, b).is_clicked && !s.field(a, b).is_clicked {
                                assert(flooded(s, x as int, y as int, (a, b)));
                            }
                        }
                    }
                    return repaint;
                },
            }
        }
    }

    /// The number the click counter shows after `(x, y)` is opened.
    pub open spec fn counted(self, x: int, y: int) -> int {
        if self.field(x, y).is_clicked {
            self.click_counter as int
        } else {
            self.click_counter + 1
        }
    }

    /// Opening `(x, y)` opens the squares around it as well: it shows 0, or it
    /// was open already and as many flags lie around it as it shows.
    pub open spec fn chords(self, x: int, y: int) -> bool {
        ||| self.field(x, y).value == 0
        ||| self.field(x, y).is_clicked && self.adjacent_flags(x, y) == self.field(x, y).value
    }

    /// The squares that opening `(x, y)` opens, when no mine goes off.
    pub open spec fn opened_by(self, x: int, y: int) -> spec_fn(int, int) -> bool {
        |a: int, b: int| (a == x && b == y) || (self.chords(x, y) && flooded(self, x, y, (a, b)))
    }

    /// Clicking `(x, y)` on `self` gives the board `t`, the outcome `outcome`
    /// and the squares to repaint `repaint`.
    pub open spec fn click_result(
        self,
        x: int,
        y: int,
        t: Board,
        outcome: ClickOutcome,
        repaint: Seq<(usize, usize)>,
    ) -> bool {
        let f = self.field(x, y);
        let pos = self.bad_guy.position;
        let at_pos = pos.0 as int == x && pos.1 as int == y;
        let counter = self.counted(x, y);
        if f.is_flagged || self.game_over {
            &&& outcome == ClickOutcome::Ignored
            &&& t == self
            &&& repaint.len() == 0
        } else if self.is_mine(x, y) {
            &&& outcome == ClickOutcome::Exploded
            &&& only_opened(self, t, |a: int, b: int| false)
            &&& t.same_but_fields(self.mines_revealed())
            &&& lists_mines(self, repaint)
        } else if self.chords(x, y) && first_bad(self, x, y) < neighbors(x, y, self.dim()).len() {
            &&& outcome == ClickOutcome::WrongFlag
            &&& only_opened(
                self,
                t,
                |a: int, b: int| (a == x && b == y) || early_opened(self, x, y, a, b),
            )
            &&& t.same_but_fields(
                Board {
                    click_counter: counter as usize,
                    bad_guy: BadGuy { is_active: at_pos || self.bad_guy.is_active, ..self.bad_guy },
                    ..self
                }.mines_revealed(),
            )
            &&& lists_mines(self, repaint)
        } else {
            &&& only_opened(self, t, self.opened_by(x, y))
            &&& t.same_but_fields(
                Board {
                    click_counter: counter as usize,
                    game_over: cleared(t),
                    bad_guy: BadGuy {
                        is_active: if self.opened_by(x, y)(pos.0 as int, pos.1 as int) {
                            counter != 0
                        } else {
                            self.bad_guy.is_active
                        },
                        ..self.bad_guy
                    },
                    ..self
                },
            )
            &&& outcome == if cleared(t) {
                ClickOutcome::Won
            } else {
                ClickOutcome::Continued
            }
            &&& forall|c: (usize, usize)|
                #[trigger] repaint.contains(c) <==> in_grid(c.0 as int, c.1 as int, self.dim())
                    && self.opened_by(x, y)(c.0 as int, c.1 as int)
        }
    }

    /// The click counter can count a click on `(x, y)`.
    pub open spec fn counter_has_room(self, x: int, y: int) -> bool {
        ||| self.click_counter < usize::MAX
        ||| self.game_over
        ||| self.field(x, y).is_flagged
        ||| self.is_mine(x, y)
        ||| self.field(x, y).is_clicked
    }

    /// Opens `(x, y)` and the squares around it, then the squares the opening
    /// reaches, unless an unflagged mine lies around it, which ends the game.
    /// Tells whether one did, and returns the repainted squares.
    fn open_chord(&mut self, x: usize, y: usize) -> (res: (bool, Vec<(usize, usize)>))
        requires
            old(self).wf(),
            x < old(self).dimension,
            y < old(self).dimension,
        ensures
            final(self).wf(),
            res.0 == (first_bad(*old(self), x as int, y as int) < neighbors(
                x as int,
                y as int,
                old(self).dim(),
            ).len()),
            res.0 ==> only_opened(
                *old(self),
                *final(self),
                |a: int, b: int| (a == x && b == y) || early_opened(*old(self), x as int, y as int, a, b),
            ),
            res.0 ==> final(self).same_but_fields(old(self).mines_revealed()),
            res.0 ==> lists_mines(*old(self), res.1@),
            !res.0 ==> only_opened(
                *old(self),
                *final(self),
                |a: int, b: int| (a == x && b == y) || flooded(*old(self), x as int, y as int, (a, b)),
            ),
            !res.0 ==> final(self).same_but_fields(
                Board {
                    bad_guy: BadGuy {
                        is_active: if flooded(
                            *old(self),
                            x as int,
                            y as int,
                            (old(self).bad_guy.position.0 as int, old(self).bad_guy.position.1 as int),
                        ) {
                            old(self).click_counter != 0
                        } else {
                            old(self).bad_guy.is_active
                        },
                        ..old(self).bad_guy
                    },
                    ..*old(self)
                },
            ),
            !res.0 ==> forall|c: (usize, usize)|
                #[trigger] res.1@.contains(c) <==> in_grid(c.0 as int, c.1 as int, old(self).dim())
                    && flooded(*old(self), x as int, y as int, (c.0 as int, c.1 as int)),
    {
        let ghost s = *self;
        let ghost dim = self.dim();
        let ghost pos = s.bad_guy.position;
        let f = self.fields[x][y];
        let mut queue: VecDeque<(usize, usize)> = VecDeque::new();
        queue.push_back((x, y));
        self.set_field(x, y, Field { is_clicked: true, ..f });
        let ghost s1 = *self;
        proof {
            lemma_square_fits(dim);
            assert forall|u: int, v: int|
                in_grid(u, v, dim) && (u != x || v != y) implies #[trigger] s1.field(u, v) == s.field(
                u,
                v,
            ) by {}
        }
        let hit = self.open_around(x, y, &mut queue);
        proof {
            assert forall|a: int, b: int| in_grid(a, b, dim) implies early_opened(
                s1,
                x as int,
                y as int,
                a,
                b,
            ) == early_opened(s, x as int, y as int, a, b) by {
                lemma_early_same(s1, s, x as int, y as int, a, b);
            }
            lemma_early_same(s1, s, x as int, y as int, x as int, y as int);
        }
        if hit {
            let ghost t1 = *self;
            let repaint = self.reveal_all_mines();
            proof {
                assert(t1.is_mine(pos.0 as int, pos.1 as int) == s.is_mine(pos.0 as int, pos.1 as int))
                    by {
                    assert(t1.field(pos.0 as int, pos.1 as int).value == s1.field(
                        pos.0 as int,
                        pos.1 as int,
                    ).value);
                    if pos.0 != x || pos.1 != y {
                        assert(s1.field(pos.0 as int, pos.1 as int) == s.field(
                            pos.0 as int,
                            pos.1 as int,
                        ));
                    }
                }
                assert forall|a: int, b: int| in_grid(a, b, dim) implies #[trigger] self.field(a, b)
                    == (Field {
                    is_clicked: s.field(a, b).is_clicked || ((a == x && b == y) || early_opened(
                        s,
                        x as int,
                        y as int,
                        a,
                        b,
                    )),
                    ..s.field(a, b)
                }) by {
                    assert(t1.field(a, b) == self.field(a, b));
                    if a != x || b != y {
                        assert(s1.field(a, b) == s.field(a, b));
                    }
                }
                assert(lists_mines(s, repaint@)) by {
                    assert forall|a: int, b: int| in_grid(a, b, dim) implies t1.is_mine(a, b)
                        == s.is_mine(a, b) by {
                        assert(t1.field(a, b).value == s1.field(a, b).value);
                    }
                }
            }
            return (true, repaint);
        }
        proof {
            lemma_first_bad_bound(s1, neighbors(x as int, y as int, dim), 0);
            assert(spreading(*self, s1, x as int, y as int, queue@, seq![], seq![])) by {
                assert forall|a: int, b: int| in_grid(a, b, dim) implies early_opened(
                    s1,
                    x as int,
                    y as int,
                    a,
                    b,
                ) == flood_start(s1, x as int, y as int, (a, b)) || (a == x && b == y) by {
                    lemma_early_all(s1, x as int, y as int, a, b);
                }
                assert forall|a: int, b: int|
                    in_grid(a, b, dim) && flood_start(
                        s1,
                        x as int,
                        y as int,
                        (a, b),
                    ) implies #[trigger] self.field(a, b).is_clicked by {}
                assert forall|a: int, b: int|
                    in_grid(a, b, dim) && self.field(a, b).is_clicked && !s1.field(
                        a,
                        b,
                    ).is_clicked implies flooded(s1, x as int, y as int, (a, b)) by {
                    lemma_flood_start(s1, x as int, y as int, (a, b));
                }
                assert forall|c: (usize, usize)| #[trigger] queue@.contains(c) implies in_grid(
                    c.0 as int,
                    c.1 as int,
                    dim,
                ) && marked(*self, s1, x as int, y as int, (c.0 as int, c.1 as int)) by {
                    lemma_push_contains(seq![], (x, y), c);
                }
                assert forall|a: int, b: int|
                    in_grid(a, b, dim) && marked(
                        *self,
                        s1,
                        x as int,
                        y as int,
                        (a, b),
                    ) implies queue@.contains((a as usize, b as usize)) by {
                    lemma_push_contains(seq![], (x, y), (a as usize, b as usize));
                }
            }
        }
        let repaint = self.spread(&mut queue, Ghost(s1), x, y);
        proof {
            assert forall|a: int, b: int| in_grid(a, b, dim) implies flooded(
                s1,
                x as int,
                y as int,
                (a, b),
            ) == flooded(s, x as int, y as int, (a, b)) by {
                if flooded(s1, x as int, y as int, (a, b)) {
                    lemma_flooded_same(s1, s, x as int, y as int, (a, b));
                }
                if flooded(s, x as int, y as int, (a, b)) {
                    lemma_flooded_same(s, s1, x as int, y as int, (a, b));
                }
            }
            if flooded(s1, x as int, y as int, (pos.0 as int, pos.1 as int)) {
                lemma_flooded_same(s1, s, x as int, y as int, (pos.0 as int, pos.1 as int));
            }
            if flooded(s, x as int, y as int, (pos.0 as int, pos.1 as int)) {
                lemma_flooded_same(s, s1, x as int, y as int, (pos.0 as int, pos.1 as int));
            }
            assert forall|a: int, b: int| in_grid(a, b, dim) implies #[trigger] self.field(a, b)
                == (Field {
                is_clicked: s.field(a, b).is_clicked || ((a == x && b == y) || flooded(
                    s,
                    x as int,
                    y as int,
                    (a, b),
                )),
                ..s.field(a, b)
            }) by {
                if a != x || b != y {
                    assert(s1.field(a, b) == s.field(a, b));
                }
            }
        }
        (false, repaint)
    }

    /// Opens `(x, y)` for good, repaints it, and ends the game once every square
    /// without a mine is open.
    fn finish_click(&mut self, x: usize, y: usize, repaint: &mut Vec<(usize, usize)>) -> (outcome:
        ClickOutcome)
        requires
            old(self).wf(),
            x < old(self).dimension,
            y < old(self).dimension,
            !old(self).game_over,
        ensures
            final(self).wf(),
            final(self).field(x as int, y as int) == (Field {
                is_clicked: true,
                ..old(self).field(x as int, y as int)
            }),
            forall|a: int, b: int|
                in_grid(a, b, old(self).dim()) && (a != x || b != y) ==> #[trigger] final(self).field(a, b)
                    == old(self).field(a, b),
            final(self).same_but_fields(
                Board { game_over: cleared(*final(self)), ..old(self).repainted(x as int, y as int) },
            ),
            final(repaint)@ == old(repaint)@.push((x, y)),
            outcome == if cleared(*final(self)) {
                ClickOutcome::Won
            } else {
                ClickOutcome::Continued
            },
    {
        let f = self.fields[x][y];
        self.set_field(x, y, Field { is_clicked: true, ..f });
        let ghost t = *self;
        self.change_pixbuf(x, y);
        repaint.push((x, y));
        let won = self.all_cleared();
        proof {
            assert(self.fields == t.fields);
            assert forall|a: int, b: int| in_grid(a, b, self.dim()) implies #[trigger] self.field(a, b) == t.field(a, b) by {}
        }
        if won {
            let ghost u = *self;
            self.game_over = true;
            proof {
                assert(self.fields == u.fields);
                assert forall|a: int, b: int|
                    in_grid(a, b, self.dim()) && (a != x || b != y) implies #[trigger] self.field(a, b)
                        == old(self).field(a, b) by {
                    assert(u.field(a, b) == t.field(a, b));
                }
                assert(cleared(*self) == cleared(u)) by {
                    assert forall|a: int, b: int| in_grid(a, b, self.dim()) implies #[trigger] self.field(a, b) == u.field(a, b) by {}
                }
            }
            return ClickOutcome::Won;
        }
        ClickOutcome::Continued
    }

    /// Opens square `(x, y)` on the board as it stands: nothing on a flag or
    /// after the game; a mine ends the game; else the square opens (with the
    /// squares its opening reaches, when it shows 0 or its flags are all placed,
    /// unless an unflagged mine lies around it, which ends the game), and the
    /// game is won once every square without a mine is open.
    pub fn open_field(&mut self, x: usize, y: usize) -> (report: ClickReport)
        requires
            old(self).wf(),
            x < old(self).dimension,
            y < old(self).dimension,
            old(self).counter_has_room(x as int, y as int),
        ensures
            final(self).wf(),
            !report.renewed,
            old(self).click_result(x as int, y as int, *final(self), report.outcome, report.repaint@),
    {
        let ghost s = *self;
        let ghost dim = self.dim();
        if self.fields[x][y].is_flagged || self.game_over {
            return ClickReport { outcome: ClickOutcome::Ignored, repaint: Vec::new(), renewed: false };
        }
        if self.is_mine_on_field(x, y) && !self.fields[x][y].is_flagged {
            let repaint = self.reveal_all_mines();
            return ClickReport { outcome: ClickOutcome::Exploded, repaint, renewed: false };
        }
        if x == self.bad_guy.position.0 && y == self.bad_guy.position.1 {
            self.bad_guy.is_active = true;
        }
        if !self.fields[x][y].is_clicked {
            self.click_counter += 1;
        }
        let mines_flagged = self.count_adjacent(x, y, true);
        let f = self.fields[x][y];
        let ghost s0 = *self;
        let ghost pos = s.bad_guy.position;
        let ghost at_pos = pos.0 == x && pos.1 == y;
        proof {
            lemma_square_fits(dim);
            assert(s0.flag_at() =~= s.flag_at());
            assert(f == s.field(x as int, y as int));
            assert forall|a: int, b: int| in_grid(a, b, dim) implies #[trigger] s0.field(a, b) == s.field(a, b) by {}
            assert forall|a: int, b: int| in_grid(a, b, dim) implies early_opened(
                s0,
                x as int,
                y as int,
                a,
                b,
            ) == early_opened(s, x as int, y as int, a, b) by {
                lemma_early_same(s0, s, x as int, y as int, a, b);
            }
            lemma_early_same(s0, s, x as int, y as int, x as int, y as int);
            assert forall|a: int, b: int| in_grid(a, b, dim) implies flooded(
                s0,
                x as int,
                y as int,
                (a, b),
            ) == flooded(s, x as int, y as int, (a, b)) by {
                if flooded(s0, x as int, y as int, (a, b)) {
                    lemma_flooded_same(s0, s, x as int, y as int, (a, b));
                }
                if flooded(s, x as int, y as int, (a, b)) {
                    lemma_flooded_same(s, s0, x as int, y as int, (a, b));
                }
            }
            if flooded(s0, x as int, y as int, (pos.0 as int, pos.1 as int)) {
                lemma_flooded_same(s0, s, x as int, y as int, (pos.0 as int, pos.1 as int));
            }
            if flooded(s, x as int, y as int, (pos.0 as int, pos.1 as int)) {
                lemma_flooded_same(s, s0, x as int, y as int, (pos.0 as int, pos.1 as int));
            }
            assert(s0.is_mine(pos.0 as int, pos.1 as int) == s.is_mine(pos.0 as int, pos.1 as int));
        }
        let chord = (mines_flagged == f.value && f.is_clicked) || f.value == 0;
        assert(chord == s.chords(x as int, y as int));
        let mut repaint: Vec<(usize, usize)> = Vec::new();
        if chord {
            let (hit, r) = self.open_chord(x, y);
            if hit {
                return ClickReport { outcome: ClickOutcome::WrongFlag, repaint: r, renewed: false };
            }
            repaint = r;
        }
        let ghost t2 = *self;
        let ghost r2 = repaint@;
        let outcome = self.finish_click(x, y, &mut repaint);
        proof {
            assert forall|a: int, b: int| in_grid(a, b, dim) implies #[trigger] self.field(a, b)
                == (Field {
                is_clicked: s.field(a, b).is_clicked || s.opened_by(x as int, y as int)(a, b),
                ..s.field(a, b)
            }) by {
                if a != x || b != y {
                    assert(self.field(a, b) == t2.field(a, b));
                }
            }
            assert forall|c: (usize, usize)|
                #[trigger] repaint@.contains(c) <==> in_grid(c.0 as int, c.1 as int, dim)
                    && s.opened_by(x as int, y as int)(c.0 as int, c.1 as int) by {
                lemma_push_contains(r2, (x, y), c);
            }
        }
        ClickReport { outcome, repaint, renewed: false }
    }

    /// Clicking `(x, y)` on `self` with [`Board::click_field`] gives `t`, the
    /// outcome, the squares to repaint, and tells whether the mines were laid
    /// anew: on the first click (no square opened yet) onto a square that does
    /// not show 0, they are, keeping `(x, y)` and the squares around it clear,
    /// and the square is then opened on the new board.
    pub open spec fn click_field_result(
        self,
        x: int,
        y: int,
        t: Board,
        outcome: ClickOutcome,
        repaint: Seq<(usize, usize)>,
        renewed: bool,
    ) -> bool {
        &&& renewed == (self.click_counter == 0 && self.field(x, y).value != 0)
        &&& !renewed ==> self.click_result(x, y, t, outcome, repaint)
        &&& renewed ==> exists|mid: Board|
            {
                &&& mid.wf()
                &&& mid.freshly_laid(Some((x as usize, y as usize)))
                &&& mid.same_but_fields(
                    Board { bad_guy: BadGuy { is_active: false, ..self.bad_guy }, ..self },
                )
                &&& #[trigger] mid.click_result(x, y, t, outcome, repaint)
            }
    }

    /// A click on `(x, y)` can be carried out: the counter can count it, and on a
    /// first click that lays the mines anew there is room for them off the
    /// squares kept clear.
    pub open spec fn may_click(self, x: int, y: int) -> bool {
        &&& self.click_counter == 0 && self.field(x, y).value != 0 ==> self.mines_count
            <= room_for_mines(Some((x as usize, y as usize)), self.dim())
        &&& self.counter_has_room(x, y)
    }

    /// Tells whether a click on `(x, y)` can be carried out.
    pub fn clickable(&self, x: usize, y: usize) -> (r: bool)
        requires
            self.wf(),
            x < self.dimension,
            y < self.dimension,
        ensures
            r == self.may_click(x as int, y as int),
    {
        let f = self.fields[x][y];
        let counts = self.click_counter < usize::MAX || self.game_over || f.is_flagged
            || self.is_mine_on_field(x, y) || f.is_clicked;
        if self.click_counter == 0 && f.value != 0 {
            let room = self.count_room(Some((x, y)));
            counts && self.mines_count <= room
        } else {
            counts
        }
    }

    /// Clicks square `(x, y)`. On the first click (no square opened yet), unless
    /// the square already shows 0, the mines are first laid anew at random,
    /// keeping the square and those around it clear; then the square is opened
    /// as [`Board::open_field`] does. A first click on a board whose squares show
    /// their counts never sets off a mine.
    pub fn click_field(board: &mut Board, x: usize, y: usize) -> (report: ClickReport)
        requires
            old(board).wf(),
            x < old(board).dimension,
            y < old(board).dimension,
            old(board).may_click(x as int, y as int),
        ensures
            final(board).wf(),
            old(board).click_field_result(
                x as int,
                y as int,
                *final(board),
                report.outcome,
                report.repaint@,
                report.renewed,
            ),
            old(board).click_counter == 0 && old(board).values_consistent() ==> report.outcome
                != ClickOutcome::Exploded && report.outcome != ClickOutcome::WrongFlag,
    {
        let renewed = board.click_counter == 0 && board.fields[x][y].value != 0;
        if renewed {
            board.renew(Some((x, y)));
        }
        let ghost mid = *board;
        proof {
            if renewed {
                lemma_clear_start(mid, x as int, y as int);
            }
            if mid.click_counter == 0 && mid.values_consistent() && !mid.game_over
                && !mid.field(x as int, y as int).is_flagged {
                if !renewed {
                    assert(mid.field(x as int, y as int).value == 0);
                }
                lemma_zero_has_no_bad_neighbor(mid, x as int, y as int);
            }
        }
        let opened = board.open_field(x, y);
        let report = ClickReport { outcome: opened.outcome, repaint: opened.repaint, renewed };
        proof {
            if renewed {
                assert(mid.same_but_fields(
                    Board { bad_guy: BadGuy { is_active: false, ..old(board).bad_guy }, ..*old(board) },
                ));
                assert(mid.click_result(x as int, y as int, *board, report.outcome, report.repaint@));
            }
        }
        report
    }
}

/// A click only ever opens squares: every open square stays open, and no mine,
/// number or flag changes. After the game, a click changes nothing.
pub proof fn lemma_click_only_opens(
    s: Board,
    t: Board,
    x: int,
    y: int,
    outcome: ClickOutcome,
    repaint: Seq<(usize, usize)>,
)
    requires
        s.wf(),
        in_grid(x, y, s.dim()),
        s.click_result(x, y, t, outcome, repaint),
    ensures
        forall|a: int, b: int|
            in_grid(a, b, s.dim()) ==> {
                &&& (#[trigger] s.field(a, b)).is_clicked ==> t.field(a, b).is_clicked
                &&& t.field(a, b).value == s.field(a, b).value
                &&& t.field(a, b).is_flagged == s.field(a, b).is_flagged
            },
        t.dimension == s.dimension,
        t.mines_count == s.mines_count,
        t.flags_placed == s.flags_placed,
        s.game_over ==> t == s && outcome == ClickOutcome::Ignored,
{
    assert forall|a: int, b: int| in_grid(a, b, s.dim()) implies {
        &&& (#[trigger] s.field(a, b)).is_clicked ==> t.field(a, b).is_clicked
        &&& t.field(a, b).value == s.field(a, b).value
        &&& t.field(a, b).is_flagged == s.field(a, b).is_flagged
    } by {}
}

/// No mine of `b` lies open.
pub open spec fn no_mine_open(b: Board) -> bool {
    forall|a: int, c: int|
        in_grid(a, c, b.dim()) && #[trigger] b.is_mine(a, c) ==> !b.field(a, c).is_clicked
}

/// On a board whose squares show their counts, the opening of a square without
/// a mine reaches no mine.
proof fn lemma_flooded_is_no_mine(s: Board, x: int, y: int, c: (int, int))
    requires
        s.wf(),
        in_grid(x, y, s.dim()),
        s.values_consistent(),
        !s.is_mine(x, y),
        flooded(s, x, y, c),
    ensures
        in_grid(c.0, c.1, s.dim()),
        !s.is_mine(c.0, c.1),
{
    let path = choose|path: Seq<(int, int)>| #[trigger] flood_path(s, x, y, path) && path.last() == c;
    let n = path.len();
    if n == 1 {
        assert(flood_start(s, x, y, path[0]));
    } else {
        assert(step_holds(s, x, y, path, n - 2));
        let from = path[n - 2];
        if n == 2 {
            assert(flood_start(s, x, y, path[0]));
        } else {
            assert(step_holds(s, x, y, path, n - 3));
        }
        assert(in_grid(from.0, from.1, s.dim()));
        lemma_zero_has_no_bad_neighbor(s, from.0, from.1);
        assert(touches(c.0, c.1, from.0, from.1));
    }
}

/// On a board whose squares show their counts and where no mine lies open, a
/// click (as [`Board::open_field`] makes it) opens no mine, and the click
/// counter never goes back.
pub proof fn lemma_click_opens_no_mine(
    s: Board,
    t: Board,
    x: int,
    y: int,
    outcome: ClickOutcome,
    repaint: Seq<(usize, usize)>,
)
    requires
        s.wf(),
        in_grid(x, y, s.dim()),
        s.values_consistent(),
        no_mine_open(s),
        s.counter_has_room(x, y),
        s.click_result(x, y, t, outcome, repaint),
    ensures
        no_mine_open(t),
        t.click_counter >= s.click_counter,
{
    let dim = s.dim();
    assert forall|a: int, c: int| in_grid(a, c, dim) && #[trigger] t.is_mine(a, c) implies !t.field(
        a,
        c,
    ).is_clicked by {
        if !(s.field(x, y).is_flagged || s.game_over) {
            assert(t.field(a, c).value == s.field(a, c).value);
            assert(s.is_mine(a, c));
        }
        if !(s.field(x, y).is_flagged || s.game_over) && !s.is_mine(x, y) {
            if s.chords(x, y) && first_bad(s, x, y) < neighbors(x, y, dim).len() {
                if early_opened(s, x, y, a, c) {
                    let i = choose|i: int|
                        0 <= i < first_bad(s, x, y) && #[trigger] neighbors(x, y, dim)[i] == (
                            a as usize,
                            c as usize,
                        ) && !s.field(a, c).is_clicked && !s.is_mine(a, c);
                }
            } else {
                if s.chords(x, y) && flooded(s, x, y, (a, c)) {
                    lemma_flooded_is_no_mine(s, x, y, (a, c));
                }
            }
        }
    }
}

/// On a board whose squares show their counts and where no mine lies open, a
/// click with [`Board::click_field`] (laying the mines anew on a first click)
/// opens no mine, and the click counter never goes back.
pub proof fn lemma_click_field_opens_no_mine(
    s: Board,
    t: Board,
    x: int,
    y: int,
    outcome: ClickOutcome,
    repaint: Seq<(usize, usize)>,
    renewed: bool,
)
    requires
        s.wf(),
        in_grid(x, y, s.dim()),
        s.values_consistent(),
        no_mine_open(s),
        s.may_click(x, y),
        s.click_field_result(x, y, t, outcome, repaint, renewed),
    ensures
        no_mine_open(t),
        t.click_counter >= s.click_counter,
{
    if renewed {
        let mid = choose|mid: Board|
            {
                &&& mid.wf()
                &&& mid.freshly_laid(Some((x as usize, y as usize)))
                &&& mid.same_but_fields(
                    Board { bad_guy: BadGuy { is_active: false, ..s.bad_guy }, ..s },
                )
                &&& #[trigger] mid.click_result(x, y, t, outcome, repaint)
            };
        assert forall|a: int, c: int| in_grid(a, c, mid.dim()) && #[trigger] mid.is_mine(a, c)
            implies !mid.field(a, c).is_clicked by {}
        lemma_click_opens_no_mine(mid, t, x, y, outcome, repaint);
    } else {
        lemma_click_opens_no_mine(s, t, x, y, outcome, repaint);
    }
}

/// A click wins only when it leaves every square without a mine opened, and a
/// win ends the game. A click that goes on leaves some square without a mine
/// closed (a flag on it does not make it cleared), and the game goes on.
pub proof fn lemma_click_wins_only_when_cleared(
    s: Board,
    t: Board,
    x: int,
    y: int,
    outcome: ClickOutcome,
    repaint: Seq<(usize, usize)>,
)
    requires
        s.click_result(x, y, t, outcome, repaint),
    ensures
        outcome == ClickOutcome::Won ==> t.game_over && forall|a: int, b: int|
            in_grid(a, b, t.dim()) && !t.is_mine(a, b) ==> (#[trigger] t.field(a, b)).is_clicked,
        outcome == ClickOutcome::Continued ==> !t.game_over && exists|a: int, b: int|
            in_grid(a, b, t.dim()) && !t.is_mine(a, b) && !(#[trigger] t.field(a, b)).is_clicked,
{
}

/// The same for a click with [`Board::click_field`], which may lay the mines
/// anew first: it wins only when every square without a mine is opened, and
/// goes on only while one is still closed.
pub proof fn lemma_click_field_wins_only_when_cleared(
    s: Board,
    t: Board,
    x: int,
    y: int,
    outcome: ClickOutcome,
    repaint: Seq<(usize, usize)>,
    renewed: bool,
)
    requires
        s.click_field_result(x, y, t, outcome, repaint, renewed),
    ensures
        outcome == ClickOutcome::Won ==> t.game_over && forall|a: int, b: int|
            in_grid(a, b, t.dim()) && !t.is_mine(a, b) ==> (#[trigger] t.field(a, b)).is_clicked,
        outcome == ClickOutcome::Continued ==> !t.game_over && exists|a: int, b: int|
            in_grid(a, b, t.dim()) && !t.is_mine(a, b) && !(#[trigger] t.field(a, b)).is_clicked,
{
    if renewed {
        let mid = choose|mid: Board|
            {
                &&& mid.wf()
                &&& mid.freshly_laid(Some((x as usize, y as usize)))
                &&& mid.same_but_fields(
                    Board { bad_guy: BadGuy { is_active: false, ..s.bad_guy }, ..s },
                )
                &&& #[trigger] mid.click_result(x, y, t, outcome, repaint)
            };
        lemma_click_wins_only_when_cleared(mid, t, x, y, outcome, repaint);
    } else {
        lemma_click_wins_only_when_cleared(s, t, x, y, outcome, repaint);
    }
}

} // verus!
