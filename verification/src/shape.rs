use vstd::prelude::*;
use crate::color::Color;
use crate::node::Node;
use crate::order::sorted;
use crate::tree::Tree;

verus! {

/// Every index in `ids` is below `bound`.
#[verifier::opaque]
pub open spec fn ids_below(ids: Seq<usize>, bound: nat) -> bool {
    forall|k: int| 0 <= k < ids.len() ==> #[trigger] ids[k] < bound
}

/// The listing of a node with index `id` over the listings of its children.
pub open spec fn joined(left: Seq<usize>, id: usize, right: Seq<usize>) -> Seq<usize> {
    left.push(id) + right
}

impl Tree {
    /// The in-order listing of what hangs in `slot`: nothing where it is empty.
    pub open spec fn span(&self, slot: Option<usize>) -> Seq<usize> {
        match slot {
            Some(id) => self.spans()[id as int],
            None => Seq::empty(),
        }
    }

    /// The black count of the paths below `slot`: zero where it is empty.
    pub open spec fn black_height(&self, slot: Option<usize>) -> nat {
        match slot {
            Some(id) => self.heights()[id as int],
            None => 0,
        }
    }

    /// An absent child counts as black.
    pub open spec fn is_black(&self, slot: Option<usize>) -> bool {
        match slot {
            Some(id) => self.nodes()[id as int].color == Color::Black,
            None => true,
        }
    }

    /// The indices of all nodes, in order.
    pub open spec fn order(&self) -> Seq<usize> {
        self.span(self.root_id())
    }

    /// The keys of the nodes `ids`, one by one.
    pub open spec fn keys(&self, ids: Seq<usize>) -> Seq<i32> {
        Seq::new(ids.len(), |k: int| self.nodes()[ids[k] as int].key)
    }

    /// Key and colour of the nodes `ids`, one by one.
    pub open spec fn entries(&self, ids: Seq<usize>) -> Seq<(i32, Color)> {
        Seq::new(
            ids.len(),
            |k: int| (self.nodes()[ids[k] as int].key, self.nodes()[ids[k] as int].color),
        )
    }

    /// A child of `id` in `slot` is a node that names `id` as its parent.
    pub open spec fn link_ok(&self, id: usize, slot: Option<usize>) -> bool {
        match slot {
            Some(child) => child < self.size() && self.nodes()[child as int].parent == Some(id),
            None => true,
        }
    }

    /// The links of node `id` agree with those of its neighbours.
    pub open spec fn node_linked(&self, id: usize) -> bool {
        let node = self.nodes()[id as int];
        &&& self.link_ok(id, node.left)
        &&& self.link_ok(id, node.right)
        &&& node.left is Some ==> node.left != node.right
        &&& match node.parent {
            Some(up) => up < self.size() && (self.nodes()[up as int].left == Some(id)
                || self.nodes()[up as int].right == Some(id)),
            None => self.root_id() == Some(id),
        }
    }

    /// The listing of node `id` is that of its left child, then `id`, then
    /// that of its right child, and the keys along it never go down.
    pub open spec fn node_listed(&self, id: usize) -> bool {
        let node = self.nodes()[id as int];
        let span = self.spans()[id as int];
        &&& span == joined(self.span(node.left), id, self.span(node.right))
        &&& span.len() <= self.size()
        &&& ids_below(span, self.size())
        &&& sorted(self.keys(span))
    }

    /// The nodes form one binary search tree below the root.
    pub open spec fn shape_ok(&self) -> bool {
        &&& self.spans().len() == self.size()
        &&& match self.root_id() {
            Some(root) => {
                &&& root < self.size()
                &&& self.nodes()[root as int].parent is None
                &&& self.spans()[root as int].len() == self.size()
                &&& self.spans()[root as int].no_duplicates()
            },
            None => self.size() == 0,
        }
        &&& forall|id: usize| id < self.size() ==> #[trigger] self.node_linked(id)
        &&& forall|id: usize| id < self.size() ==> #[trigger] self.node_listed(id)
    }

    /// Below node `id` both sides carry the same black count.
    pub open spec fn node_balanced(&self, id: usize) -> bool {
        let node = self.nodes()[id as int];
        &&& self.heights()[id as int] == self.black_height(node.left) + node.color.weight()
        &&& self.heights()[id as int] == self.black_height(node.right) + node.color.weight()
    }

    /// `slot` is empty, black, or holds `except`.
    pub open spec fn is_black_or(&self, slot: Option<usize>, except: usize) -> bool {
        slot == Some(except) || self.is_black(slot)
    }

    /// If node `id` is red, its children are black; a child `except` may be
    /// red all the same.
    pub open spec fn node_colored_except(&self, id: usize, except: usize) -> bool {
        let node = self.nodes()[id as int];
        node.color == Color::Red ==> self.is_black_or(node.left, except) && self.is_black_or(
            node.right,
            except,
        )
    }

    /// If node `id` is red, its children are black.
    pub open spec fn node_colored(&self, id: usize) -> bool {
        let node = self.nodes()[id as int];
        node.color == Color::Red ==> self.is_black(node.left) && self.is_black(node.right)
    }

    /// The tree is a red-black tree: a binary search tree in which no red
    /// node has a red child, every path from a node down to an absent child
    /// passes the same number of black nodes, and the root is black.
    pub open spec fn wf(&self) -> bool {
        &&& self.shape_ok()
        &&& self.heights().len() == self.size()
        &&& forall|id: usize| id < self.size() ==> #[trigger] self.node_balanced(id)
        &&& forall|id: usize| id < self.size() ==> #[trigger] self.node_colored(id)
        &&& self.is_black(self.root_id())
    }

    /// The tree is a red-black tree but for the red node `at`, whose parent
    /// may be red too, and which may be the root.
    pub open spec fn wf_except(&self, at: usize) -> bool {
        &&& self.shape_ok()
        &&& self.heights().len() == self.size()
        &&& at < self.size()
        &&& self.nodes()[at as int].color == Color::Red
        &&& forall|id: usize| id < self.size() ==> #[trigger] self.node_balanced(id)
        &&& forall|id: usize| id < self.size() ==> #[trigger] self.node_colored_except(id, at)
        &&& self.is_black_or(self.root_id(), at)
    }

    /// Every node of `other` is a node of `self`, with the same key.
    pub open spec fn keeps_keys(&self, other: &Tree) -> bool {
        &&& other.size() <= self.size()
        &&& forall|id: usize|
            id < other.size() ==> (#[trigger] self.nodes()[id as int]).key
                == other.nodes()[id as int].key
    }

    /// Both trees hold the same keys under the same indices.
    pub open spec fn same_keys(&self, other: &Tree) -> bool {
        &&& self.size() == other.size()
        &&& self.keeps_keys(other)
    }

    /// The keys of all nodes, in order.
    pub open spec fn key_seq(&self) -> Seq<i32> {
        self.keys(self.order())
    }
}

/// Joining to the right of a joined listing: the inner listing is the
/// front of the whole.
pub proof fn lemma_joined_front(
    a: Seq<usize>,
    x: usize,
    b: Seq<usize>,
    y: usize,
    c: Seq<usize>,
)
    ensures
        joined(a, x, joined(b, y, c)) == joined(joined(a, x, b), y, c),
        joined(a, x, b) == joined(a, x, joined(b, y, c)).subrange(
            0,
            (a.len() + 1 + b.len()) as int,
        ),
        joined(a, x, b).len() == a.len() + 1 + b.len(),
{
    let whole = joined(a, x, joined(b, y, c));
    assert(whole =~= joined(joined(a, x, b), y, c));
    assert(joined(a, x, b) =~= whole.subrange(0, (a.len() + 1 + b.len()) as int));
}

/// Joining to the left of a joined listing: the inner listing is the back
/// of the whole.
pub proof fn lemma_joined_back(
    a: Seq<usize>,
    x: usize,
    b: Seq<usize>,
    y: usize,
    c: Seq<usize>,
)
    ensures
        joined(joined(a, x, b), y, c) == joined(a, x, joined(b, y, c)),
        joined(b, y, c) == joined(joined(a, x, b), y, c).subrange(
            (a.len() + 1) as int,
            (a.len() + 1 + b.len() + 1 + c.len()) as int,
        ),
        joined(joined(a, x, b), y, c).len() == a.len() + 1 + b.len() + 1 + c.len(),
{
    let whole = joined(joined(a, x, b), y, c);
    assert(whole =~= joined(a, x, joined(b, y, c)));
    assert(joined(b, y, c) =~= whole.subrange(
        (a.len() + 1) as int,
        (a.len() + 1 + b.len() + 1 + c.len()) as int,
    ));
}

/// Putting an index into the right part of a joined listing.
pub proof fn lemma_joined_insert_right(
    left: Seq<usize>,
    id: usize,
    right: Seq<usize>,
    at: int,
    leaf: usize,
)
    requires
        0 <= at <= right.len(),
    ensures
        joined(left, id, right).insert(left.len() + 1 + at, leaf) == joined(
            left,
            id,
            right.insert(at, leaf),
        ),
{
    assert(joined(left, id, right).insert(left.len() + 1 + at, leaf) =~= joined(
        left,
        id,
        right.insert(at, leaf),
    ));
}

/// Putting an index into the left part of a joined listing.
pub proof fn lemma_joined_insert_left(
    left: Seq<usize>,
    id: usize,
    right: Seq<usize>,
    at: int,
    leaf: usize,
)
    requires
        0 <= at <= left.len(),
    ensures
        joined(left, id, right).insert(at, leaf) == joined(left.insert(at, leaf), id, right),
{
    assert(joined(left, id, right).insert(at, leaf) =~= joined(left.insert(at, leaf), id, right));
}

pub proof fn lemma_ids_below_more(ids: Seq<usize>, bound: nat, more: nat)
    requires
        ids_below(ids, bound),
        bound <= more,
    ensures
        ids_below(ids, more),
{
    reveal(ids_below);
}

/// A listing below `bound` stays free of doubles, and below `bound + 1`,
/// when the index `bound` is put into it.
pub proof fn lemma_insert_fresh(ids: Seq<usize>, bound: nat, at: int, leaf: usize)
    requires
        ids_below(ids, bound),
        0 <= at <= ids.len(),
        leaf == bound,
    ensures
        ids_below(ids.insert(at, leaf), bound + 1),
        ids.no_duplicates() ==> ids.insert(at, leaf).no_duplicates(),
{
    reveal(ids_below);
    let out = ids.insert(at, leaf);
    assert forall|k: int| 0 <= k < out.len() implies #[trigger] out[k] < bound + 1 by {
        if k < at {
            assert(out[k] == ids[k]);
        } else if k > at {
            assert(out[k] == ids[k - 1]);
        }
    }
    if ids.no_duplicates() {
        assert forall|i: int, j: int| 0 <= i < out.len() && 0 <= j < out.len() && i != j implies out[i]
            != out[j] by {
            let a = if i < at { i } else { i - 1 };
            let b = if j < at { j } else { j - 1 };
            if i != at {
                assert(out[i] == ids[a]);
            }
            if j != at {
                assert(out[j] == ids[b]);
            }
        }
    }
}

pub proof fn lemma_ids_below_at(ids: Seq<usize>, bound: nat, k: int)
    requires
        ids_below(ids, bound),
        0 <= k < ids.len(),
    ensures
        ids[k] < bound,
{
    reveal(ids_below);
}

pub proof fn lemma_ids_below_piece(ids: Seq<usize>, bound: nat, from: int, to: int)
    requires
        ids_below(ids, bound),
        0 <= from <= to <= ids.len(),
    ensures
        ids_below(ids.subrange(from, to), bound),
{
    reveal(ids_below);
    let piece = ids.subrange(from, to);
    assert forall|k: int| 0 <= k < piece.len() implies #[trigger] piece[k] < bound by {
        assert(piece[k] == ids[from + k]);
    }
}

impl Tree {
    /// The keys of a piece of a listing are that piece of the listing's keys.
    pub proof fn lemma_keys_piece(&self, ids: Seq<usize>, from: int, to: int)
        requires
            0 <= from <= to <= ids.len(),
        ensures
            self.keys(ids.subrange(from, to)) == self.keys(ids).subrange(from, to),
    {
        assert(self.keys(ids.subrange(from, to)) =~= self.keys(ids).subrange(from, to));
    }

    /// The keys of a joined listing.
    pub proof fn lemma_keys_joined(&self, left: Seq<usize>, id: usize, right: Seq<usize>)
        ensures
            self.keys(joined(left, id, right)) == self.keys(left).push(
                self.nodes()[id as int].key,
            ) + self.keys(right),
    {
        assert(self.keys(joined(left, id, right)) =~= self.keys(left).push(
            self.nodes()[id as int].key,
        ) + self.keys(right));
    }

    /// The keys of a listing into which a new node was put.
    pub proof fn lemma_keys_inserted(&self, other: &Tree, ids: Seq<usize>, at: int, leaf: usize)
        requires
            self.keeps_keys(other),
            ids_below(ids, other.size()),
            0 <= at <= ids.len(),
        ensures
            self.keys(ids.insert(at, leaf)) == other.keys(ids).insert(
                at,
                self.nodes()[leaf as int].key,
            ),
    {
        reveal(ids_below);
        let out = ids.insert(at, leaf);
        let keys = other.keys(ids).insert(at, self.nodes()[leaf as int].key);
        assert forall|k: int| 0 <= k < out.len() implies self.keys(out)[k] == keys[k] by {
            if k != at {
                let from = if k < at { k } else { k - 1 };
                let id = ids[from];
                assert(out[k] == id);
                assert(id < other.size());
                assert(self.nodes()[id as int].key == other.nodes()[id as int].key);
            }
        }
        assert(self.keys(out) =~= keys);
    }

    /// Trees that hold the same keys give a listing the same keys.
    pub proof fn lemma_keys_same(&self, other: &Tree, ids: Seq<usize>)
        requires
            self.keeps_keys(other),
            ids_below(ids, other.size()),
        ensures
            self.keys(ids) == other.keys(ids),
    {
        reveal(ids_below);
        assert forall|k: int| 0 <= k < ids.len() implies self.keys(ids)[k] == other.keys(
            ids,
        )[k] by {
            let id = ids[k];
            assert(id < other.size());
            assert(self.nodes()[id as int].key == other.nodes()[id as int].key);
        }
        assert(self.keys(ids) =~= other.keys(ids));
    }
}

impl View for Tree {
    type V = Seq<(i32, Color)>;

    /// Key and colour of every node, in order.
    open spec fn view(&self) -> Seq<(i32, Color)> {
        self.entries(self.order())
    }
}

} // verus!
