use vstd::prelude::*;

verus! {

/// One of the two child slots of a node, and one of the two ways to rotate.
#[derive(Clone, Copy, Debug, PartialEq, Eq, Structural)]
pub enum Dir {
    Left,
    Right,
}

impl Dir {
    /// The mirror image of `self`.
    pub open spec fn flip(self) -> Dir {
        match self {
            Dir::Left => Dir::Right,
            Dir::Right => Dir::Left,
        }
    }

    /// Returns the other side.
    pub fn opposite(self) -> (other: Dir)
        ensures
            other == self.flip(),
            other != self,
            other.flip() == self,
    {
        match self {
            Dir::Left => Dir::Right,
            Dir::Right => Dir::Left,
        }
    }

    /// The side on which a key is sought below a node that holds `at`:
    /// smaller keys go left, equal and larger keys go right.
    pub open spec fn side_of(key: i32, at: i32) -> Dir {
        if key < at {
            Dir::Left
        } else {
            Dir::Right
        }
    }
}

} // verus!
