use vstd::prelude::*;

verus! {

/// The colour of a node. An absent child counts as black.
#[derive(Clone, Copy, Debug, PartialEq, Eq, Structural)]
pub enum Color {
    Red,
    Black,
}

impl Color {
    /// What a node of this colour adds to the black count of a path through it.
    pub open spec fn weight(self) -> nat {
        match self {
            Color::Red => 0,
            Color::Black => 1,
        }
    }
}

} // verus!
