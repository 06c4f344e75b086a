use vstd::prelude::*;
use crate::color::Color;
use crate::dir::Dir;
use crate::node::Node;

verus! {

/// A red-black tree: an arena of nodes and the index of the root.
///
/// Beside the nodes the tree carries two ghost labels for each of them, which
/// exist for the proofs alone: the in-order listing of the node's subtree, and
/// the number of black nodes on every path from the node down to an absent
/// child.
pub struct Tree {
    nodes: Vec<Node>,
    root: Option<usize>,
    spans: Ghost<Seq<Seq<usize>>>,
    heights: Ghost<Seq<nat>>,
}

impl Tree {
    /// The arena: the node with index `id` is `nodes()[id]`.
    pub closed spec fn nodes(&self) -> Seq<Node> {
        self.nodes@
    }

    /// The index of the root, if the tree is not empty.
    pub closed spec fn root_id(&self) -> Option<usize> {
        self.root
    }

    /// For each node the indices of the nodes of its subtree, in order.
    pub closed spec fn spans(&self) -> Seq<Seq<usize>> {
        self.spans@
    }

    /// For each node the black count of the paths below it, itself included.
    pub closed spec fn heights(&self) -> Seq<nat> {
        self.heights@
    }

    /// The number of nodes.
    pub open spec fn size(&self) -> nat {
        self.nodes().len()
    }

    /// An empty tree.
    pub fn new() -> (tree: Tree)
        ensures
            tree.wf(),
            tree.size() == 0,
            tree.root_id() is None,
            tree@ == Seq::<(i32, Color)>::empty(),
    {
        proof {
            assert(Seq::<(i32, Color)>::new(0, |k: int| (0i32, Color::Red)) =~= Seq::empty());
        }
        Tree { nodes: Vec::new(), root: None, spans: Ghost(Seq::empty()), heights: Ghost(Seq::empty()) }
    }

    /// The number of nodes.
    pub fn len(&self) -> (n: usize)
        ensures
            n == self.size(),
    {
        self.nodes.len()
    }

    /// The index of the root, if the tree is not empty.
    pub fn root(&self) -> (root: Option<usize>)
        ensures
            root == self.root_id(),
    {
        self.root
    }

    /// The node with index `id`.
    pub fn node(&self, id: usize) -> (node: Node)
        requires
            id < self.size(),
        ensures
            node == self.nodes()[id as int],
    {
        self.nodes[id]
    }

    /// Adds a red node that is linked to nothing and returns its index. Its
    /// labels are those of a red leaf.
    pub(crate) fn create_node(&mut self, key: i32) -> (id: usize)
        ensures
            id == old(self).size(),
            final(self).nodes() == old(self).nodes().push(Node::fresh(key)),
            final(self).root_id() == old(self).root_id(),
            final(self).spans() == old(self).spans().push(seq![id]),
            final(self).heights() == old(self).heights().push(0),
    {
        let id = self.nodes.len();
        self.nodes.push(Node { key, color: Color::Red, parent: None, left: None, right: None });
        self.spans = Ghost(self.spans@.push(seq![id]));
        self.heights = Ghost(self.heights@.push(0));
        id
    }

    pub(crate) fn set_root(&mut self, root: Option<usize>)
        ensures
            final(self).root_id() == root,
            final(self).nodes() == old(self).nodes(),
            final(self).spans() == old(self).spans(),
            final(self).heights() == old(self).heights(),
    {
        self.root = root;
    }

    pub(crate) fn set_color(&mut self, id: usize, color: Color)
        requires
            id < old(self).size(),
        ensures
            final(self).nodes() == old(self).nodes().update(
                id as int,
                (Node { color, ..old(self).nodes()[id as int] }),
            ),
            final(self).root_id() == old(self).root_id(),
            final(self).spans() == old(self).spans(),
            final(self).heights() == old(self).heights(),
    {
        let node = self.nodes[id];
        self.nodes.set(id, Node { color, ..node });
    }

    pub(crate) fn set_parent(&mut self, id: usize, parent: Option<usize>)
        requires
            id < old(self).size(),
        ensures
            final(self).nodes() == old(self).nodes().update(
                id as int,
                (Node { parent, ..old(self).nodes()[id as int] }),
            ),
            final(self).root_id() == old(self).root_id(),
            final(self).spans() == old(self).spans(),
            final(self).heights() == old(self).heights(),
    {
        let node = self.nodes[id];
        self.nodes.set(id, Node { parent, ..node });
    }

    pub(crate) fn set_child(&mut self, id: usize, dir: Dir, slot: Option<usize>)
        requires
            id < old(self).size(),
        ensures
            final(self).nodes() == old(self).nodes().update(
                id as int,
                old(self).nodes()[id as int].with_child(dir, slot),
            ),
            final(self).root_id() == old(self).root_id(),
            final(self).spans() == old(self).spans(),
            final(self).heights() == old(self).heights(),
    {
        let node = self.nodes[id];
        match dir {
            Dir::Left => self.nodes.set(id, Node { left: slot, ..node }),
            Dir::Right => self.nodes.set(id, Node { right: slot, ..node }),
        }
    }

    /// Replaces the subtree listings.
    pub(crate) fn set_spans(&mut self, spans: Ghost<Seq<Seq<usize>>>)
        ensures
            final(self).spans() == spans@,
            final(self).nodes() == old(self).nodes(),
            final(self).root_id() == old(self).root_id(),
            final(self).heights() == old(self).heights(),
    {
        self.spans = spans;
    }

    /// Replaces the black counts.
    pub(crate) fn set_heights(&mut self, heights: Ghost<Seq<nat>>)
        ensures
            final(self).heights() == heights@,
            final(self).nodes() == old(self).nodes(),
            final(self).root_id() == old(self).root_id(),
            final(self).spans() == old(self).spans(),
    {
        self.heights = heights;
    }
}

} // verus!
