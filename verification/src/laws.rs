use vstd::prelude::*;
use crate::color::Color;
use crate::model::{fixed, inserted, landing, root_painted};
use crate::node::Node;
use crate::order::{
    insertion_point, lemma_point_bounded, lemma_point_is, lemma_point_splits, lemma_sorted_at,
    sorted, sorted_insert, splits_at,
};
use crate::tree::Tree;

verus! {

impl Tree {
    /// `child` hangs directly below `id`.
    pub open spec fn is_child(&self, id: usize, child: usize) -> bool {
        self.nodes()[id as int].left == Some(child) || self.nodes()[id as int].right == Some(child)
    }

    /// In `path` the node at place `k + 1` hangs directly below the one at
    /// place `k`.
    pub open spec fn step_down(&self, path: Seq<usize>, k: int) -> bool {
        self.is_child(path[k], path[k + 1])
    }

    /// `path` leads downwards through the tree, from its first node to its
    /// last.
    pub open spec fn is_path(&self, path: Seq<usize>) -> bool {
        &&& path.len() >= 1
        &&& forall|k: int| 0 <= k < path.len() ==> #[trigger] path[k] < self.size()
        &&& forall|k: int| 0 <= k < path.len() - 1 ==> #[trigger] self.step_down(path, k)
    }

    /// The last node of `path` has an empty slot below it.
    pub open spec fn reaches_gap(&self, path: Seq<usize>) -> bool {
        let last = self.nodes()[path.last() as int];
        last.left is None || last.right is None
    }

    /// The number of black nodes on `path`.
    pub open spec fn black_count(&self, path: Seq<usize>) -> nat
        decreases path.len(),
    {
        if path.len() == 0 {
            0
        } else {
            self.nodes()[path[0] as int].color.weight() + self.black_count(path.drop_first())
        }
    }

    /// A path without its first node is a path, if anything is left of it.
    proof fn lemma_path_rest(&self, path: Seq<usize>)
        requires
            self.is_path(path),
            path.len() >= 2,
        ensures
            self.is_path(path.drop_first()),
            path.drop_first().last() == path.last(),
            path.drop_first()[0] == path[1],
            self.is_child(path[0], path[1]),
    {
        let rest = path.drop_first();
        assert forall|k: int| 0 <= k < rest.len() implies #[trigger] rest[k] < self.size() by {
            assert(rest[k] == path[k + 1]);
        }
        assert forall|k: int| 0 <= k < rest.len() - 1 implies #[trigger] self.step_down(
            rest,
            k,
        ) by {
            assert(self.step_down(path, k + 1));
            assert(rest[k] == path[k + 1] && rest[k + 1] == path[k + 2]);
        }
        assert(self.step_down(path, 0));
    }

    /// The black count of a path down to an empty slot is the black height
    /// of the node that it starts at.
    proof fn lemma_black_count(&self, path: Seq<usize>)
        requires
            self.wf(),
            self.is_path(path),
            self.reaches_gap(path),
        ensures
            self.black_count(path) == self.black_height(Some(path[0])),
        decreases path.len(),
    {
        let first = path[0];
        assert(self.node_balanced(first));
        if path.len() == 1 {
            assert(self.black_count(path.drop_first()) == 0);
        } else {
            self.lemma_path_rest(path);
            self.lemma_black_count(path.drop_first());
        }
    }

    /// The node that a path ends at is in the listing of the node that it
    /// starts at.
    proof fn lemma_path_listed(&self, path: Seq<usize>)
        requires
            self.wf(),
            self.is_path(path),
        ensures
            self.span(Some(path[0])).contains(path.last()),
        decreases path.len(),
    {
        let first = path[0];
        let node = self.nodes()[first as int];
        let span = self.span(Some(first));
        let left = self.span(node.left);
        assert(self.node_listed(first));
        if path.len() == 1 {
            assert(span[left.len() as int] == first);
        } else {
            self.lemma_path_rest(path);
            self.lemma_path_listed(path.drop_first());
            let below = self.span(Some(path[1]));
            let at = choose|at: int| 0 <= at < below.len() && below[at] == path.last();
            if node.left == Some(path[1]) {
                assert(span[at] == path.last());
            } else {
                assert(span[left.len() + 1 + at] == path.last());
            }
        }
    }
}

/// No key below the left child of a node is greater than the node's key,
/// and no key below its right child is smaller. Here `path` leads from
/// the node through one of its children down to any node below.
pub proof fn lemma_keys_around_node(tree: &Tree, path: Seq<usize>)
    requires
        tree.wf(),
        tree.is_path(path),
        path.len() >= 2,
    ensures
        tree.nodes()[path[0] as int].left == Some(path[1]) ==> tree.nodes()[path.last() as int].key
            <= tree.nodes()[path[0] as int].key,
        tree.nodes()[path[0] as int].right == Some(path[1]) ==> tree.nodes()[path[0] as int].key
            <= tree.nodes()[path.last() as int].key,
{
    let first = path[0];
    let node = tree.nodes()[first as int];
    let span = tree.span(Some(first));
    let left = tree.span(node.left);
    tree.lemma_path_rest(path);
    tree.lemma_path_listed(path.drop_first());
    assert(tree.node_listed(first));
    assert(tree.node_linked(first));
    let below = tree.span(Some(path[1]));
    let at = choose|at: int| 0 <= at < below.len() && below[at] == path.last();
    assert(span[left.len() as int] == first);
    if node.left == Some(path[1]) {
        assert(span[at] == path.last());
        lemma_sorted_at(tree.keys(span), at, left.len() as int);
    }
    if node.right == Some(path[1]) {
        assert(span[left.len() + 1 + at] == path.last());
        lemma_sorted_at(tree.keys(span), left.len() as int, left.len() + 1 + at);
    }
}

/// A key below the left child of a node is smaller than the node's key,
/// unless the two are equal: a rotation can carry one of two equal keys
/// over to the left of the other.
pub proof fn lemma_left_keys_smaller(tree: &Tree, path: Seq<usize>)
    requires
        tree.wf(),
        tree.is_path(path),
        path.len() >= 2,
        tree.nodes()[path[0] as int].left == Some(path[1]),
        tree.nodes()[path.last() as int].key != tree.nodes()[path[0] as int].key,
    ensures
        tree.nodes()[path.last() as int].key < tree.nodes()[path[0] as int].key,
{
    lemma_keys_around_node(tree, path);
}

/// A red node has no red child.
pub proof fn lemma_no_red_red(tree: &Tree, id: usize, child: usize)
    requires
        tree.wf(),
        id < tree.size(),
        tree.is_child(id, child),
        tree.nodes()[id as int].color == Color::Red,
    ensures
        tree.nodes()[child as int].color == Color::Black,
{
    assert(tree.node_colored(id));
}

/// Any two paths from one node down to an empty slot pass the same number
/// of black nodes.
pub proof fn lemma_black_height(tree: &Tree, first: Seq<usize>, second: Seq<usize>)
    requires
        tree.wf(),
        tree.is_path(first),
        tree.is_path(second),
        first[0] == second[0],
        tree.reaches_gap(first),
        tree.reaches_gap(second),
    ensures
        tree.black_count(first) == tree.black_count(second),
{
    tree.lemma_black_count(first);
    tree.lemma_black_count(second);
}

/// The root is black.
pub proof fn lemma_root_black(tree: &Tree)
    requires
        tree.wf(),
        tree.root_id() is Some,
    ensures
        tree.nodes()[tree.root_id().unwrap() as int].color == Color::Black,
{
}

/// An only child is red.
pub proof fn lemma_only_child_red(tree: &Tree, id: usize, child: usize)
    requires
        tree.wf(),
        id < tree.size(),
        tree.is_child(id, child),
        tree.nodes()[id as int].left is None || tree.nodes()[id as int].right is None,
    ensures
        tree.nodes()[child as int].color == Color::Red,
{
    assert(tree.node_balanced(id));
    assert(tree.node_linked(id));
    assert(tree.node_balanced(child));
}

/// The traversal has one entry for each node, and no node stands in it
/// twice.
pub proof fn lemma_traversal_len(tree: &Tree)
    requires
        tree.wf(),
    ensures
        tree@.len() == tree.size(),
        tree.order().len() == tree.size(),
        tree.order().no_duplicates(),
        tree.key_seq().len() == tree.size(),
{
}

/// The entries of the traversal are key and colour of the nodes in order.
pub proof fn lemma_traversal_entry(tree: &Tree, k: int)
    requires
        tree.wf(),
        0 <= k < tree@.len(),
    ensures
        tree.order()[k] < tree.size(),
        tree@[k].0 == tree.nodes()[tree.order()[k] as int].key,
        tree@[k].1 == tree.nodes()[tree.order()[k] as int].color,
        tree@[k].0 == tree.key_seq()[k],
{
    let root = tree.root_id().unwrap();
    assert(tree.node_listed(root));
    crate::shape::lemma_ids_below_at(tree.order(), tree.size(), k);
}

/// The keys of the traversal never go down.
pub proof fn lemma_traversal_sorted(tree: &Tree, i: int, j: int)
    requires
        tree.wf(),
        0 <= i <= j < tree@.len(),
    ensures
        tree@[i].0 <= tree@[j].0,
{
    let root = tree.root_id().unwrap();
    assert(tree.node_listed(root));
    lemma_sorted_at(tree.key_seq(), i, j);
}

/// Two traversals of one tree give the same entries.
pub proof fn lemma_traversal_repeats(tree: &Tree, first: Seq<(i32, Color)>, second: Seq<(i32, Color)>)
    requires
        first == tree@,
        second == tree@,
    ensures
        first == second,
{
}

/// A key that is inserted twice stands twice in the keys, the second time
/// directly behind the first.
pub proof fn lemma_equal_key_behind(keys: Seq<i32>, key: i32)
    requires
        sorted(keys),
    ensures
        insertion_point(sorted_insert(keys, key), key) == insertion_point(keys, key) + 1,
        sorted_insert(sorted_insert(keys, key), key)[insertion_point(keys, key) as int] == key,
        sorted_insert(sorted_insert(keys, key), key)[insertion_point(keys, key) as int + 1] == key,
{
    let point = insertion_point(keys, key) as int;
    let once = sorted_insert(keys, key);
    lemma_point_splits(keys, key);
    lemma_point_bounded(keys, key);
    assert(splits_at(once, key, point + 1)) by {
        assert forall|k: int| 0 <= k < point + 1 implies #[trigger] once[k] <= key by {
            if k < point {
                assert(once[k] == keys[k]);
            }
        }
        assert forall|k: int| point + 1 <= k < once.len() implies #[trigger] once[k] > key by {
            assert(once[k] == keys[k - 1]);
        }
    }
    lemma_point_is(once, key, point + 1);
}

/// Two nodes that are inserted with the same key, one after the other,
/// are two nodes, and the second stands in order directly behind the first.
pub proof fn lemma_equal_nodes_adjacent(start: &Tree, once: &Tree, twice: &Tree, key: i32)
    requires
        start.wf(),
        once.wf(),
        twice.wf(),
        once.inserted_from(start, key),
        twice.inserted_from(once, key),
    ensures
        twice.size() == start.size() + 2,
        twice.order()[insertion_point(start.key_seq(), key) as int] == start.size(),
        twice.order()[insertion_point(start.key_seq(), key) as int + 1] == start.size() + 1,
        twice.key_seq()[insertion_point(start.key_seq(), key) as int] == key,
        twice.key_seq()[insertion_point(start.key_seq(), key) as int + 1] == key,
{
    let point = insertion_point(start.key_seq(), key) as int;
    lemma_point_bounded(start.key_seq(), key);
    lemma_traversal_len(start);
    lemma_traversal_len(once);
    lemma_traversal_len(twice);
    if let Some(root) = start.root_id() {
        assert(start.node_listed(root));
    } else {
        crate::order::lemma_short_sorted(start.key_seq());
    }
    lemma_once_keys(start, once, key);
    lemma_equal_key_behind(start.key_seq(), key);
    assert(twice.order().remove(point + 1)[point] == once.order()[point]);
    lemma_traversal_entry(twice, point);
    lemma_traversal_entry(twice, point + 1);
}

/// The keys after an insertion are the keys before it with the new key in
/// its place.
pub proof fn lemma_once_keys(start: &Tree, once: &Tree, key: i32)
    requires
        start.wf(),
        once.wf(),
        once.inserted_from(start, key),
    ensures
        once.key_seq() == sorted_insert(start.key_seq(), key),
{
    let point = insertion_point(start.key_seq(), key) as int;
    let leaf = once.order()[point];
    lemma_point_bounded(start.key_seq(), key);
    lemma_traversal_len(start);
    lemma_traversal_len(once);
    assert(once.order() =~= start.order().insert(point, leaf));
    if let Some(root) = start.root_id() {
        assert(start.node_listed(root));
    } else {
        reveal(crate::shape::ids_below);
    }
    once.lemma_keys_inserted(start, start.order(), point, leaf);
}

/// Where the node has no parent, or a black one, the repair changes no
/// link and no key: it paints the root black and leaves the rest.
pub proof fn lemma_nothing_to_fix(nodes: Seq<Node>, root: Option<usize>, at: usize, fuel: nat)
    requires
        nodes[at as int].parent is None || nodes[nodes[at as int].parent.unwrap() as int].color
            == Color::Black,
    ensures
        fixed(nodes, root, at, fuel) == (root_painted(nodes, root), root),
{
}

/// The first key makes a black root. A second key hangs below it as a red
/// leaf, on the left if it is smaller and on the right if it is not, and
/// the root stays as it is.
pub proof fn lemma_second_key_below_first(first: i32, second: i32)
    ensures
        inserted(Seq::empty(), None, first) == (
            seq![(Node { color: Color::Black, ..Node::fresh(first) })],
            Some(0usize),
        ),
        second < first ==> inserted(
            seq![(Node { color: Color::Black, ..Node::fresh(first) })],
            Some(0usize),
            second,
        ) == (
            seq![
                (Node { color: Color::Black, left: Some(1usize), ..Node::fresh(first) }),
                (Node { parent: Some(0usize), ..Node::fresh(second) }),
            ],
            Some(0usize),
        ),
        second >= first ==> inserted(
            seq![(Node { color: Color::Black, ..Node::fresh(first) })],
            Some(0usize),
            second,
        ) == (
            seq![
                (Node { color: Color::Black, right: Some(1usize), ..Node::fresh(first) }),
                (Node { parent: Some(0usize), ..Node::fresh(second) }),
            ],
            Some(0usize),
        ),
{
    reveal_with_fuel(fixed, 2);
    reveal_with_fuel(landing, 2);
    let one = seq![(Node { color: Color::Black, ..Node::fresh(first) })];
    assert(Seq::<Node>::empty().push((Node { color: Color::Black, ..Node::fresh(first) })) =~= one);
    let two = inserted(one, Some(0usize), second).0;
    if second < first {
        assert(two =~= seq![
            (Node { color: Color::Black, left: Some(1usize), ..Node::fresh(first) }),
            (Node { parent: Some(0usize), ..Node::fresh(second) }),
        ]);
    } else {
        assert(two =~= seq![
            (Node { color: Color::Black, right: Some(1usize), ..Node::fresh(first) }),
            (Node { parent: Some(0usize), ..Node::fresh(second) }),
        ]);
    }
}

} // verus!