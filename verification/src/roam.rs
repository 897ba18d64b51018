use vstd::prelude::*;
use crate::adjacent::{Adjacent, in_grid, neighbors, touches, lemma_neighbors_exact};
use crate::bad_guy::BadGuy;
use crate::board::{Board, near};
use crate::click::ClickReport;
use crate::random::random_below;

verus! {

/// A turn of the bad guy: the square he left, the square he stepped to, and
/// what stepping on it did.
pub struct Turn {
    pub from: (usize, usize),
    pub to: (usize, usize),
    pub click: ClickReport,
}

/// The squares of `cells` that carry no flag on `b`, in order.
pub open spec fn unflagged(b: Board, cells: Seq<(usize, usize)>) -> Seq<(usize, usize)>
    decreases cells.len(),
{
    if cells.len() == 0 {
        seq![]
    } else {
        let rest = unflagged(b, cells.drop_last());
        if !b.field(cells.last().0 as int, cells.last().1 as int).is_flagged {
            rest.push(cells.last())
        } else {
            rest
        }
    }
}

proof fn lemma_unflagged_members(b: Board, cells: Seq<(usize, usize)>)
    ensures
        forall|c: (usize, usize)|
            #[trigger] unflagged(b, cells).contains(c) ==> cells.contains(c) && !b.field(
                c.0 as int,
                c.1 as int,
            ).is_flagged,
    decreases cells.len(),
{
    if cells.len() > 0 {
        let d = cells.drop_last();
        lemma_unflagged_members(b, d);
        assert forall|c: (usize, usize)|
            #[trigger] unflagged(b, cells).contains(c) implies cells.contains(c) && !b.field(
                c.0 as int,
                c.1 as int,
            ).is_flagged by {
            let rest = unflagged(b, d);
            if rest.contains(c) {
                let i = choose|i: int| 0 <= i < d.len() && d[i] == c;
                assert(cells[i] == c);
            } else {
                let u = unflagged(b, cells);
                let i = choose|i: int| 0 <= i < u.len() && u[i] == c;
                if i < rest.len() {
                    assert(rest[i] == c);
                }
                assert(cells[cells.len() - 1] == c);
            }
        }
    }
}

proof fn lemma_unflagged_keeps(b: Board, cells: Seq<(usize, usize)>)
    ensures
        forall|c: (usize, usize)|
            cells.contains(c) && !b.field(c.0 as int, c.1 as int).is_flagged ==> #[trigger] unflagged(
                b,
                cells,
            ).contains(c),
    decreases cells.len(),
{
    if cells.len() > 0 {
        let d = cells.drop_last();
        lemma_unflagged_keeps(b, d);
        assert forall|c: (usize, usize)|
            cells.contains(c) && !b.field(c.0 as int, c.1 as int).is_flagged implies #[trigger] unflagged(
                b,
                cells,
            ).contains(c) by {
            let rest = unflagged(b, d);
            let u = unflagged(b, cells);
            if c == cells.last() {
                assert(u[u.len() - 1] == c);
            } else {
                let i = choose|i: int| 0 <= i < cells.len() && cells[i] == c;
                assert(i < d.len());
                assert(d[i] == c);
                assert(rest.contains(c));
                let j = choose|j: int| 0 <= j < rest.len() && rest[j] == c;
                assert(u[j] == c);
            }
        }
    }
}

impl Board {
    /// The squares the bad guy can step to: those around him without a flag,
    /// in the order of the walk.
    pub open spec fn moves(self) -> Seq<(usize, usize)> {
        unflagged(
            self,
            neighbors(
                self.bad_guy.position.0 as int,
                self.bad_guy.position.1 as int,
                self.dim(),
            ),
        )
    }

    /// The board after the bad guy steps from where he stands to `to`, and both
    /// squares are repainted.
    pub open spec fn stepped(self, to: (usize, usize)) -> Board {
        let from = self.bad_guy.position;
        Board {
            bad_guy: BadGuy { position: to, ..self.bad_guy },
            ..self
        }.repainted(from.0 as int, from.1 as int).repainted(to.0 as int, to.1 as int)
    }

    /// Lists the squares the bad guy can step to: those around him without a
    /// flag, in the order of the walk.
    pub fn bad_guy_moves(&self) -> (moves: Vec<(usize, usize)>)
        requires
            self.wf(),
        ensures
            moves@ == self.moves(),
    {
        let ghost dim = self.dim();
        let ghost all = neighbors(
            self.bad_guy.position.0 as int,
            self.bad_guy.position.1 as int,
            dim,
        );
        proof {
            lemma_neighbors_exact(self.bad_guy.position.0 as int, self.bad_guy.position.1 as int, dim);
        }
        let mut adj = Adjacent::new(self.dimension, self.bad_guy.position.0, self.bad_guy.position.1);
        let mut moves: Vec<(usize, usize)> = Vec::new();
        let ghost mut taken: int = 0;
        loop
            invariant
                self.wf(),
                dim == self.dim(),
                adj.wf(),
                adj.dim() == dim,
                all == neighbors(
                    self.bad_guy.position.0 as int,
                    self.bad_guy.position.1 as int,
                    dim,
                ),
                0 <= taken <= all.len(),
                forall|i: int| 0 <= i < all.len() ==> {
                    let c = #[trigger] all[i];
                    in_grid(c.0 as int, c.1 as int, dim)
                },
                adj.remaining() == all.skip(taken),
                moves@ == unflagged(*self, all.take(taken)),
            decreases all.len() - taken,
        {
            match adj.next() {
                Some((a, b)) => {
                    assert(all.take(taken + 1).drop_last() == all.take(taken));
                    assert(all[taken] == (a, b));
                    assert(all.take(taken + 1).last() == (a, b));
                    if !self.fields[a][b].is_flagged {
                        moves.push((a, b));
                    }
                    proof {
                        taken = taken + 1;
                        assert(adj.remaining() == all.skip(taken));
                    }
                },
                None => {
                    assert(all.skip(taken).len() == 0);
                    assert(all.take(taken) == all);
                    return moves;
                },
            }
        }
    }

    /// Moves the bad guy to a square drawn at random among those he can step
    /// to; he stays where he is when there is none.
    pub fn move_bad_guy(&mut self)
        requires
            old(self).wf(),
        ensures
            final(self).wf(),
            *final(self) == (Board {
                bad_guy: BadGuy { position: final(self).bad_guy.position, ..old(self).bad_guy },
                ..*old(self)
            }),
            old(self).moves().len() == 0 ==> final(self).bad_guy.position == old(
                self,
            ).bad_guy.position,
            old(self).moves().len() > 0 ==> old(self).moves().contains(final(self).bad_guy.position),
    {
        let moves = self.bad_guy_moves();
        if moves.len() == 0 {
            return;
        }
        let r = random_below(moves.len()).value();
        self.step_bad_guy(r);
    }

    /// Moves the bad guy to the `r`-th square he can step to (counting from 0
    /// in the order of the walk).
    pub fn step_bad_guy(&mut self, r: usize)
        requires
            old(self).wf(),
            r < old(self).moves().len(),
        ensures
            final(self).wf(),
            *final(self) == (Board {
                bad_guy: BadGuy { position: old(self).moves()[r as int], ..old(self).bad_guy },
                ..*old(self)
            }),
    {
        let moves = self.bad_guy_moves();
        let offset = moves[r];
        proof {
            lemma_neighbors_exact(
                self.bad_guy.position.0 as int,
                self.bad_guy.position.1 as int,
                self.dim(),
            );
            lemma_unflagged_members(
                *self,
                neighbors(self.bad_guy.position.0 as int, self.bad_guy.position.1 as int, self.dim()),
            );
            assert(moves@.contains(offset));
        }
        self.bad_guy.position = (offset.0, offset.1);
    }
}

impl Board {
    /// Every square the bad guy may step to can be clicked.
    pub open spec fn may_roam(self) -> bool {
        forall|a: int, b: int|
            in_grid(a, b, self.dim()) && near(
                a,
                b,
                self.bad_guy.position.0 as int,
                self.bad_guy.position.1 as int,
            ) ==> #[trigger] self.may_click(a, b)
    }

    /// Tells whether every square the bad guy may step to can be clicked.
    pub fn roamable(&self) -> (r: bool)
        requires
            self.wf(),
        ensures
            r == self.may_roam(),
    {
        let ghost dim = self.dim();
        let pos = self.bad_guy.position;
        let ghost all = neighbors(pos.0 as int, pos.1 as int, dim);
        proof {
            lemma_neighbors_exact(pos.0 as int, pos.1 as int, dim);
        }
        let mut ok = self.clickable(pos.0, pos.1);
        let mut adj = Adjacent::new(self.dimension, pos.0, pos.1);
        let ghost mut taken: int = 0;
        loop
            invariant
                self.wf(),
                dim == self.dim(),
                pos == self.bad_guy.position,
                adj.wf(),
                adj.dim() == dim,
                all == neighbors(pos.0 as int, pos.1 as int, dim),
                0 <= taken <= all.len(),
                forall|i: int| 0 <= i < all.len() ==> {
                    let c = #[trigger] all[i];
                    in_grid(c.0 as int, c.1 as int, dim) && touches(
                        c.0 as int,
                        c.1 as int,
                        pos.0 as int,
                        pos.1 as int,
                    )
                },
                forall|a: int, b: int|
                    in_grid(a, b, dim) && touches(a, b, pos.0 as int, pos.1 as int) ==> all.contains(
                        (a as usize, b as usize),
                    ),
                adj.remaining() == all.skip(taken),
                ok == (self.may_click(pos.0 as int, pos.1 as int) && forall|i: int|
                    0 <= i < taken ==> self.may_click(
                        (#[trigger] all[i]).0 as int,
                        all[i].1 as int,
                    )),
            decreases all.len() - taken,
        {
            match adj.next() {
                Some((a, b)) => {
                    assert(all[taken] == (a, b));
                    let c = self.clickable(a, b);
                    ok = ok && c;
                    proof {
                        taken = taken + 1;
                        assert(adj.remaining() == all.skip(taken));
                    }
                },
                None => {
                    assert(all.skip(taken).len() == 0);
                    proof {
                        if ok {
                            assert forall|a: int, b: int|
                                in_grid(a, b, dim) && near(
                                    a,
                                    b,
                                    pos.0 as int,
                                    pos.1 as int,
                                ) implies #[trigger] self.may_click(a, b) by {
                                if a != pos.0 || b != pos.1 {
                                    assert(all.contains((a as usize, b as usize)));
                                    let i = choose|i: int|
                                        0 <= i < all.len() && all[i] == (a as usize, b as usize);
                                    assert(self.may_click(all[i].0 as int, all[i].1 as int));
                                }
                            }
                        } else if self.may_click(pos.0 as int, pos.1 as int) {
                            let i = choose|i: int|
                                0 <= i < taken && !self.may_click(
                                    (#[trigger] all[i]).0 as int,
                                    all[i].1 as int,
                                );
                            let c = all[i];
                            assert(near(c.0 as int, c.1 as int, pos.0 as int, pos.1 as int));
                        }
                    }
                    return ok;
                },
            }
        }
    }

    /// The first half of a tick of the bad guy's clock: once awake, and while
    /// the game goes on, he steps to a random square around him without a flag
    /// (or stays when there is none) and both squares are repainted. Returns the
    /// square he left and the square he stands on.
    pub fn walk_bad_guy(&mut self) -> (step: Option<((usize, usize), (usize, usize))>)
        requires
            old(self).wf(),
        ensures
            final(self).wf(),
            !(old(self).bad_guy.is_active && !old(self).game_over) ==> step is None && *final(self)
                == *old(self),
            old(self).bad_guy.is_active && !old(self).game_over ==> (step matches Some((from, to)) && {
                &&& from == old(self).bad_guy.position
                &&& old(self).moves().len() == 0 ==> to == from
                &&& old(self).moves().len() > 0 ==> old(self).moves().contains(to)
                &&& near(to.0 as int, to.1 as int, from.0 as int, from.1 as int)
                &&& *final(self) == old(self).stepped(to)
            }),
    {
        if self.bad_guy.is_active && !self.game_over {
            let from = self.bad_guy.position;
            self.move_bad_guy();
            let to = self.bad_guy.position;
            self.change_pixbuf(from.0, from.1);
            self.change_pixbuf(to.0, to.1);
            proof {
                lemma_moves_stay_near(*old(self));
                if old(self).moves().len() > 0 {
                    assert(old(self).moves().contains(to));
                }
            }
            Some((from, to))
        } else {
            None
        }
    }

    /// A whole tick of the bad guy's clock: [`Board::walk_bad_guy`], then the
    /// square he stands on is clicked.
    pub fn bad_guy_turn(&mut self) -> (turn: Option<Turn>)
        requires
            old(self).wf(),
            old(self).bad_guy.is_active && !old(self).game_over ==> old(self).may_roam(),
        ensures
            final(self).wf(),
            !(old(self).bad_guy.is_active && !old(self).game_over) ==> turn is None && *final(self)
                == *old(self),
            old(self).bad_guy.is_active && !old(self).game_over ==> (turn matches Some(t) && {
                &&& t.from == old(self).bad_guy.position
                &&& old(self).moves().len() == 0 ==> t.to == t.from
                &&& old(self).moves().len() > 0 ==> old(self).moves().contains(t.to)
                &&& old(self).stepped(t.to).click_field_result(
                    t.to.0 as int,
                    t.to.1 as int,
                    *final(self),
                    t.click.outcome,
                    t.click.repaint@,
                    t.click.renewed,
                )
            }),
    {
        match self.walk_bad_guy() {
            Some((from, to)) => {
                proof {
                    assert(old(self).may_click(to.0 as int, to.1 as int));
                    assert(self.field(to.0 as int, to.1 as int) == old(self).field(
                        to.0 as int,
                        to.1 as int,
                    ));
                    assert(self.may_click(to.0 as int, to.1 as int));
                }
                let click = Board::click_field(self, to.0, to.1);
                Some(Turn { from, to, click })
            },
            None => None,
        }
    }
}

/// Where the bad guy may step: each square he can step to lies on the board
/// next to him and carries no flag.
pub proof fn lemma_moves_stay_near(b: Board)
    requires
        b.wf(),
    ensures
        forall|c: (usize, usize)|
            #[trigger] b.moves().contains(c) ==> in_grid(c.0 as int, c.1 as int, b.dim()) && touches(
                c.0 as int,
                c.1 as int,
                b.bad_guy.position.0 as int,
                b.bad_guy.position.1 as int,
            ) && !b.field(c.0 as int, c.1 as int).is_flagged,
{
    let p = b.bad_guy.position;
    let all = neighbors(p.0 as int, p.1 as int, b.dim());
    lemma_neighbors_exact(p.0 as int, p.1 as int, b.dim());
    lemma_unflagged_members(b, all);
    assert forall|c: (usize, usize)| #[trigger] b.moves().contains(c) implies in_grid(
        c.0 as int,
        c.1 as int,
        b.dim(),
    ) && touches(c.0 as int, c.1 as int, p.0 as int, p.1 as int) && !b.field(
        c.0 as int,
        c.1 as int,
    ).is_flagged by {
        assert(all.contains(c));
        let i = choose|i: int| 0 <= i < all.len() && all[i] == c;
        assert(in_grid(all[i].0 as int, all[i].1 as int, b.dim()));
    }
}

/// The bad guy's moves are exactly the squares of the board next to him that
/// carry no flag, whether they are opened or not.
pub proof fn lemma_moves_are_unflagged_neighbours(b: Board)
    requires
        b.wf(),
    ensures
        forall|c: (usize, usize)|
            #[trigger] b.moves().contains(c) <==> in_grid(c.0 as int, c.1 as int, b.dim()) && touches(
                c.0 as int,
                c.1 as int,
                b.bad_guy.position.0 as int,
                b.bad_guy.position.1 as int,
            ) && !b.field(c.0 as int, c.1 as int).is_flagged,
{
    let p = b.bad_guy.position;
    let all = neighbors(p.0 as int, p.1 as int, b.dim());
    lemma_moves_stay_near(b);
    lemma_neighbors_exact(p.0 as int, p.1 as int, b.dim());
    lemma_unflagged_keeps(b, all);
    assert forall|c: (usize, usize)|
        in_grid(c.0 as int, c.1 as int, b.dim()) && touches(
            c.0 as int,
            c.1 as int,
            p.0 as int,
            p.1 as int,
        ) && !b.field(c.0 as int, c.1 as int).is_flagged implies #[trigger] b.moves().contains(c) by {
        assert(((c.0 as int) as usize, (c.1 as int) as usize) == c);
        assert(all.contains(c));
    }
}

} // verus!
