use vstd::prelude::*;
use crate::bad_guy::BadGuy;
use crate::board::Board;

verus! {

/// The quotient of `a` by `d`, rounded toward zero.
pub open spec fn quotient(a: int, d: int) -> int {
    if a >= 0 {
        a / d
    } else {
        -((-a) / d)
    }
}

/// What the clock shows after `seconds` seconds: the digit before the minutes
/// (`seconds / 600`), the minutes (`seconds / 60`), the seconds of the minute
/// (`seconds % 60`, all three rounded toward zero), and whether a 0 goes before
/// the seconds (when they are below 10).
pub fn clock_face(seconds: i32) -> (face: (i32, i32, i32, bool))
    ensures
        face.0 == quotient(seconds as int, 600),
        face.1 == quotient(seconds as int, 60),
        face.2 == seconds - 60 * quotient(seconds as int, 60),
        face.3 == (face.2 < 10),
{
    let s = seconds % 60;
    (seconds / 600, seconds / 60, s, !(s >= 10))
}

impl Board {
    /// Starts a new game: counters at 0, the game on, a sleeping bad guy on a
    /// random square, and the mines laid anew at random.
    pub fn new_game(&mut self)
        requires
            old(self).wf(),
            old(self).mines_count <= old(self).dimension * old(self).dimension,
        ensures
            final(self).wf(),
            final(self).dimension == old(self).dimension,
            final(self).mines_count == old(self).mines_count,
            final(self).freshly_laid(None),
            final(self).seconds_elapsed == 0,
            final(self).flags_placed == 0,
            final(self).flags_placed == final(self).flag_total(),
            !final(self).game_over,
            final(self).click_counter == 0,
            !final(self).bad_guy.is_active,
    {
        self.seconds_elapsed = 0;
        self.flags_placed = 0;
        self.game_over = false;
        self.click_counter = 0;
        self.bad_guy = BadGuy::new(self.dimension as i8);
        self.init_fields();
        proof {
            crate::flags::lemma_fresh_board_has_no_flags(*self, None);
        }
    }

    /// One second passes: while the game goes on, counts it and returns the
    /// seconds elapsed before it; after the game, does nothing.
    pub fn tick(&mut self) -> (shown: Option<i32>)
        requires
            !old(self).game_over ==> old(self).seconds_elapsed < i32::MAX,
        ensures
            old(self).game_over ==> shown is None && *final(self) == *old(self),
            !old(self).game_over ==> shown == Some(old(self).seconds_elapsed) && *final(self) == (Board {
                seconds_elapsed: (old(self).seconds_elapsed + 1) as i32,
                ..*old(self)
            }),
    {
        if !self.game_over {
            let a = self.seconds_elapsed;
            self.seconds_elapsed += 1;
            Some(a)
        } else {
            None
        }
    }
}

} // verus!
