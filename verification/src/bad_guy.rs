use vstd::prelude::*;
use crate::random::random_below;

verus! {

/// The bad guy: where he stands and whether he has woken up.
#[derive(Clone, Copy, Debug)]
pub struct BadGuy {
    pub position: (usize, usize),
    pub is_active: bool,
}

impl BadGuy {
    /// Puts a sleeping bad guy on a random cell of a `dimension` by `dimension` grid.
    pub fn new(dimension: i8) -> (g: BadGuy)
        requires
            dimension > 0,
        ensures
            (g.position.0 as int) < dimension,
            (g.position.1 as int) < dimension,
            !g.is_active,
    {
        let x = random_below(dimension as usize).value();
        let y = random_below(dimension as usize).value();
        let position = (x, y);
        BadGuy { position, is_active: false }
    }
}

} // verus!
