use vstd::prelude::*;
use crate::color::Color;
use crate::dir::Dir;
use crate::node::Node;

verus! {

/// The side on which node `id` hangs below its parent.
pub open spec fn side_in(nodes: Seq<Node>, id: usize) -> Dir {
    let up = nodes[id as int].parent.unwrap();
    if nodes[up as int].left == Some(id) {
        Dir::Left
    } else {
        Dir::Right
    }
}

/// `nodes` with node `id` painted `color`.
pub open spec fn painted(nodes: Seq<Node>, id: usize, color: Color) -> Seq<Node> {
    nodes.update(id as int, (Node { color, ..nodes[id as int] }))
}

/// `nodes` with the root, if there is one, painted black.
pub open spec fn root_painted(nodes: Seq<Node>, root: Option<usize>) -> Seq<Node> {
    match root {
        Some(id) => painted(nodes, id, Color::Black),
        None => nodes,
    }
}

/// Nodes and root after the subtree at `sub` was rotated towards `dir`.
///
/// The child of `sub` on the other side, the pivot, takes the place of
/// `sub` below the parent of `sub`, or as the root. `sub` becomes the
/// pivot's child on side `dir`, and what the pivot had on that side becomes
/// the child of `sub` on the other side. Without a pivot nothing moves.
pub open spec fn rotated(nodes: Seq<Node>, root: Option<usize>, sub: usize, dir: Dir) -> (
    Seq<Node>,
    Option<usize>,
) {
    let was = nodes[sub as int];
    match was.child(dir.flip()) {
        None => (nodes, root),
        Some(pivot) => {
            let inner = nodes[pivot as int].child(dir);
            let up = was.parent;
            let turned = nodes.update(
                sub as int,
                (Node { parent: Some(pivot), ..was.with_child(dir.flip(), inner) }),
            ).update(
                pivot as int,
                (Node { parent: up, ..nodes[pivot as int].with_child(dir, Some(sub)) }),
            );
            let adopted = match inner {
                Some(child) => turned.update(
                    child as int,
                    (Node { parent: Some(sub), ..nodes[child as int] }),
                ),
                None => turned,
            };
            match up {
                Some(top) => (
                    adopted.update(
                        top as int,
                        nodes[top as int].with_child(side_in(nodes, sub), Some(pivot)),
                    ),
                    root,
                ),
                None => (adopted, Some(pivot)),
            }
        },
    }
}

/// Nodes and root after the repair that follows hanging the red node `at`
/// into the tree. `fuel` bounds the number of rounds; the number of nodes
/// is always enough.
///
/// While `at` has a red parent: where the uncle is red, parent and uncle
/// are painted black, the grandparent red, and the repair goes on at the
/// grandparent. Where the uncle is absent or black, a node on the inner
/// side of its parent is first brought to the outer side by rotating the
/// parent outwards; then the parent is painted black, the grandparent red,
/// the grandparent is rotated inwards, and the walk ends. At the end the
/// root is painted black.
pub open spec fn fixed(nodes: Seq<Node>, root: Option<usize>, at: usize, fuel: nat) -> (
    Seq<Node>,
    Option<usize>,
)
    decreases fuel,
{
    let up = nodes[at as int].parent;
    if fuel == 0 || up is None || nodes[up.unwrap() as int].color != Color::Red {
        (root_painted(nodes, root), root)
    } else {
        let parent = up.unwrap();
        let grand = nodes[parent as int].parent.unwrap();
        let dir = side_in(nodes, parent);
        let uncle = nodes[grand as int].child(dir.flip());
        if uncle is None || nodes[uncle.unwrap() as int].color == Color::Black {
            let (straight, top, low) = if nodes[parent as int].child(dir.flip()) == Some(at) {
                let (turned, top) = rotated(nodes, root, parent, dir);
                (turned, top, parent)
            } else {
                (nodes, root, at)
            };
            let above = straight[low as int].parent.unwrap();
            let over = straight[above as int].parent.unwrap();
            let (turned, last) = rotated(
                painted(painted(straight, above, Color::Black), over, Color::Red),
                top,
                over,
                dir.flip(),
            );
            (root_painted(turned, last), last)
        } else {
            fixed(
                painted(
                    painted(painted(nodes, parent, Color::Black), uncle.unwrap(), Color::Black),
                    grand,
                    Color::Red,
                ),
                root,
                grand,
                (fuel - 1) as nat,
            )
        }
    }
}

/// The node below which a new node with `key` is hung: the last node on
/// the way down from `at`, going left where `key` is smaller than the key
/// of a node and right where it is not. `fuel` bounds the number of steps;
/// the number of nodes is always enough.
pub open spec fn landing(nodes: Seq<Node>, at: usize, key: i32, fuel: nat) -> usize
    decreases fuel,
{
    if fuel == 0 {
        at
    } else {
        match nodes[at as int].child(Dir::side_of(key, nodes[at as int].key)) {
            Some(next) => landing(nodes, next, key, (fuel - 1) as nat),
            None => at,
        }
    }
}

/// `nodes` with a new red leaf that holds `key` hung below `parent`, on the
/// side where `key` belongs. The leaf gets the first free index.
pub open spec fn hung(nodes: Seq<Node>, parent: usize, key: i32) -> Seq<Node> {
    nodes.push((Node { parent: Some(parent), ..Node::fresh(key) })).update(
        parent as int,
        nodes[parent as int].with_child(
            Dir::side_of(key, nodes[parent as int].key),
            Some(nodes.len() as usize),
        ),
    )
}

/// Nodes and root after `key` was inserted: in an empty tree a single black
/// node; else a red leaf hung where the way down from the root ends, and
/// the repair from that leaf.
pub open spec fn inserted(nodes: Seq<Node>, root: Option<usize>, key: i32) -> (
    Seq<Node>,
    Option<usize>,
) {
    match root {
        None => (
            nodes.push((Node { color: Color::Black, ..Node::fresh(key) })),
            Some(nodes.len() as usize),
        ),
        Some(top) => {
            let parent = landing(nodes, top, key, nodes.len());
            fixed(hung(nodes, parent, key), root, nodes.len() as usize, nodes.len() + 1)
        },
    }
}

} // verus!
