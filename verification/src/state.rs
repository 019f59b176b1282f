//! Editing modes that bear on movement.
use vstd::prelude::*;

verus! {

/// `Insert` lets a caret rest one past the last character of a line; `Visual`
/// keeps the anchor fixed while the active end moves.
#[derive(Clone, Copy, PartialEq, Eq, Debug)]
pub enum Mode {
    Normal,
    Insert,
    Visual,
}

impl Mode {
    pub fn is_insert(&self) -> (r: bool)
        ensures
            r == (*self == Mode::Insert),
    {
        match self {
            Mode::Insert => true,
            _ => false,
        }
    }

    pub fn is_visual(&self) -> (r: bool)
        ensures
            r == (*self == Mode::Visual),
    {
        match self {
            Mode::Visual => true,
            _ => false,
        }
    }
}

} // verus!
