use vstd::prelude::*;
use crate::color::Color;
use crate::dir::Dir;

verus! {

/// One key of the tree with its colour and its links. A link is the index
/// of another node in the arena that owns them all.
#[derive(Clone, Copy, Debug, PartialEq, Eq, Structural)]
pub struct Node {
    pub key: i32,
    pub color: Color,
    pub parent: Option<usize>,
    pub left: Option<usize>,
    pub right: Option<usize>,
}

impl Node {
    /// A red node that is linked to nothing.
    pub open spec fn fresh(key: i32) -> Node {
        Node { key, color: Color::Red, parent: None, left: None, right: None }
    }

    pub open spec fn spec_child(self, dir: Dir) -> Option<usize> {
        match dir {
            Dir::Left => self.left,
            Dir::Right => self.right,
        }
    }

    /// The child on side `dir`, if there is one.
    #[verifier::when_used_as_spec(spec_child)]
    pub fn child(self, dir: Dir) -> (slot: Option<usize>)
        ensures
            slot == self.spec_child(dir),
    {
        match dir {
            Dir::Left => self.left,
            Dir::Right => self.right,
        }
    }

    /// `self` with the child on side `dir` replaced by `slot`.
    pub open spec fn with_child(self, dir: Dir, slot: Option<usize>) -> Node {
        match dir {
            Dir::Left => Node { left: slot, ..self },
            Dir::Right => Node { right: slot, ..self },
        }
    }
}

} // verus!
