use vstd::prelude::*;

verus! {

/// One square of the board: whether it was opened, whether it carries a flag,
/// and its value: -1 for a mine, else the number of mines around it.
#[derive(Clone, Copy, Debug, PartialEq, Eq, Structural)]
pub struct Field {
    pub is_clicked: bool,
    pub is_flagged: bool,
    pub value: i8,
}

impl Field {
    /// A closed, unflagged square with value 0.
    pub fn new() -> (f: Field)
        ensures
            !f.is_clicked,
            !f.is_flagged,
            f.value == 0,
    {
        Field { is_clicked: false, is_flagged: false, value: 0 }
    }
}

} // verus!
