use vstd::prelude::*;
use crate::color::Color;
use crate::dir::Dir;
use crate::model::{hung, inserted, landing};
use crate::node::Node;
use crate::order::{
    insertion_point, lemma_point_bounded, lemma_point_left, lemma_point_right,
    lemma_short_sorted, lemma_sorted_insert_sorted, sorted_insert,
};
use crate::shape::{
    ids_below, joined, lemma_ids_below_more, lemma_insert_fresh, lemma_joined_insert_left,
    lemma_joined_insert_right,
};
use crate::tree::Tree;

verus! {

impl Tree {
    /// What holds of a node `id` on the way down to `last`: its parent is on
    /// the way too; unless it is `last`, so is its child on the side where
    /// `key` belongs; and its other child is not.
    pub open spec fn on_path(&self, key: i32, path: Set<usize>, last: usize, id: usize) -> bool {
        let node = self.nodes()[id as int];
        let side = Dir::side_of(key, node.key);
        &&& id < self.size()
        &&& (node.parent matches Some(up) ==> path.contains(up))
        &&& (id != last ==> (node.child(side) matches Some(next) && path.contains(next)))
        &&& (node.child(side.flip()) matches Some(other) ==> !path.contains(other))
    }

    /// `path` holds the nodes that the search for the place of `key` passes,
    /// from the root down to `last`.
    pub open spec fn descends(&self, key: i32, path: Set<usize>, last: usize) -> bool {
        &&& path.contains(last)
        &&& (self.root_id() matches Some(root) && path.contains(root))
        &&& forall|id: usize| #[trigger] path.contains(id) ==> self.on_path(key, path, last, id)
    }

    /// The listing of node `id` once the new node `leaf` hangs below the
    /// last node of `path`: the nodes on the path take `leaf` in where its
    /// key belongs.
    pub open spec fn span_with_leaf(
        &self,
        key: i32,
        path: Set<usize>,
        leaf: usize,
        id: int,
    ) -> Seq<usize> {
        if id == leaf {
            seq![leaf]
        } else if path.contains(id as usize) {
            let span = self.spans()[id];
            span.insert(insertion_point(self.keys(span), key) as int, leaf)
        } else {
            self.spans()[id]
        }
    }

    pub open spec fn spans_with_leaf(&self, key: i32, path: Set<usize>, leaf: usize) -> Seq<
        Seq<usize>,
    > {
        Seq::new((self.size() + 1) as nat, |id: int| self.span_with_leaf(key, path, leaf, id))
    }

    /// `self` is `before` with a red node `leaf` that holds `key` hung into
    /// the empty slot of `parent` on the side where `key` belongs.
    pub open spec fn leaf_hung_from(
        &self,
        before: &Tree,
        key: i32,
        path: Set<usize>,
        parent: usize,
        leaf: usize,
    ) -> bool {
        let side = Dir::side_of(key, before.nodes()[parent as int].key);
        &&& leaf == before.size()
        &&& before.descends(key, path, parent)
        &&& before.nodes()[parent as int].child(side) is None
        &&& self.nodes() == before.nodes().push(
            (Node { parent: Some(parent), ..Node::fresh(key) }),
        ).update(parent as int, before.nodes()[parent as int].with_child(side, Some(leaf)))
        &&& self.root_id() == before.root_id()
        &&& self.spans() == before.spans_with_leaf(key, path, leaf)
        &&& self.heights() == before.heights().push(0)
    }

    /// `self` is `before` with one node more, which holds `key`. The new
    /// node has the index that was free, and it stands in order behind every
    /// key that is not greater than `key`, so behind the keys equal to it.
    /// The nodes of `before` keep their keys and their order.
    pub open spec fn inserted_from(&self, before: &Tree, key: i32) -> bool {
        let point = insertion_point(before.key_seq(), key) as int;
        &&& self.size() == before.size() + 1
        &&& self.keeps_keys(before)
        &&& self.nodes()[before.size() as int].key == key
        &&& self.order()[point] == before.size()
        &&& self.order().remove(point) == before.order()
    }

    /// Adds a node that holds `key` and rebalances the tree. Nodes and root
    /// afterwards are those that `inserted` gives: the new node is hung as a
    /// red leaf where the way down from the root ends, and the tree is
    /// repaired from there. The new node is put in order behind every key
    /// that is not greater than `key`. No key that was in the tree changes.
    pub fn insert(&mut self, key: i32)
        requires
            old(self).wf(),
        ensures
            (final(self).nodes(), final(self).root_id()) == inserted(
                old(self).nodes(),
                old(self).root_id(),
                key,
            ),
            final(self).wf(),
            final(self).inserted_from(old(self), key),
            final(self).key_seq() == sorted_insert(old(self).key_seq(), key),
            final(self)@.len() == old(self)@.len() + 1,
    {
        let ghost before = *self;
        let root = self.root();
        if root.is_none() {
            let node = self.create_node(key);
            self.set_root(Some(node));
            self.set_color(node, Color::Black);
            let ghost one = Seq::<nat>::empty().push(1);
            self.set_heights(Ghost(one));
            proof {
                assert(self.nodes() =~= seq![(Node { color: Color::Black, ..Node::fresh(key) })]);
                assert(self.nodes() =~= before.nodes().push(
                    (Node { color: Color::Black, ..Node::fresh(key) }),
                ));
                assert(self.spans() =~= seq![seq![0usize]]);
                self.lemma_single(key);
                assert(before.order() =~= Seq::<usize>::empty());
                assert(before.key_seq() =~= Seq::<i32>::empty());
                assert(self.order().remove(0) =~= before.order());
                assert(self.key_seq() =~= sorted_insert(before.key_seq(), key));
            }
            return ;
        }
        let mut curr = root;
        let mut parent: usize = root.unwrap();
        let mut dir = Dir::Left;
        let ghost mut path: Set<usize> = Set::empty();
        let ghost goal = landing(before.nodes(), parent, key, before.size());
        let ghost mut fuel: nat = before.size();
        proof {
            assert(before.node_listed(parent));
        }
        while curr.is_some()
            invariant
                *self == before,
                curr matches Some(at) ==> landing(self.nodes(), at, key, fuel) == goal && fuel
                    >= self.spans()[at as int].len(),
                curr is None ==> parent == goal,
                self.shape_ok(),
                self.root_id() is Some,
                (curr == self.root_id() && path == Set::<usize>::empty()) || (self.descends(
                    key,
                    path,
                    parent,
                ) && dir == Dir::side_of(key, self.nodes()[parent as int].key) && curr
                    == self.nodes()[parent as int].child(dir)),
                curr matches Some(at) ==> at < self.size() && !path.contains(at),
            decreases self.span(curr).len(),
        {
            let at = curr.unwrap();
            proof {
                self.lemma_descend(key, path, parent, at);
                self.lemma_child_shorter(at);
                assert(fuel > 0);
                let next = self.nodes()[at as int].child(
                    Dir::side_of(key, self.nodes()[at as int].key),
                );
                assert(landing(self.nodes(), at, key, fuel) == match next {
                    Some(below) => landing(self.nodes(), below, key, (fuel - 1) as nat),
                    None => at,
                });
                fuel = (fuel - 1) as nat;
            }
            parent = at;
            dir = if key < self.node(at).key {
                Dir::Left
            } else {
                Dir::Right
            };
            curr = self.node(at).child(dir);
            proof {
                path = path.insert(at);
            }
        }
        let node = self.create_node(key);
        self.set_parent(node, Some(parent));
        self.set_child(parent, dir, Some(node));
        self.set_spans(Ghost(before.spans_with_leaf(key, path, node)));
        proof {
            assert(self.nodes() =~= before.nodes().push(
                (Node { parent: Some(parent), ..Node::fresh(key) }),
            ).update(parent as int, before.nodes()[parent as int].with_child(dir, Some(node))));
            assert(self.nodes() == hung(before.nodes(), parent, key));
            assert(self.leaf_hung_from(&before, key, path, parent, node));
            self.lemma_hung(&before, key, path, parent, node);
        }
        let ghost hung = *self;
        self.insert_fix(node);
        proof {
            let root = before.root_id().unwrap();
            let point = insertion_point(before.key_seq(), key) as int;
            lemma_point_bounded(before.key_seq(), key);
            assert(before.node_listed(root));
            assert(hung.node_listed(root));
            assert(self.order() == before.order().insert(point, node));
            assert(self.order().remove(point) =~= before.order());
            self.lemma_keys_same(&hung, hung.order());
            hung.lemma_keys_inserted(&before, before.order(), point, node);
            assert(self.nodes()[node as int].key == hung.nodes()[node as int].key);
        }
    }

    /// A tree of one black node is a red-black tree.
    proof fn lemma_single(&self, key: i32)
        requires
            self.nodes() == seq![(Node { color: Color::Black, ..Node::fresh(key) })],
            self.root_id() == Some(0usize),
            self.spans() == seq![seq![0usize]],
            self.heights() == Seq::<nat>::empty().push(1),
        ensures
            self.wf(),
            self.order() == seq![0usize],
            self.key_seq() == seq![key],
            self@.len() == 1,
    {
        reveal(ids_below);
        lemma_short_sorted(self.keys(seq![0usize]));
        assert(seq![0usize] =~= joined(Seq::empty(), 0usize, Seq::empty()));
        assert(self.node_listed(0usize));
        assert(self.node_linked(0usize));
        assert(self.node_balanced(0usize));
        assert(self.node_colored(0usize));
        assert(self.key_seq() =~= seq![key]);
    }

    /// One step of the search for the place of `key`: from `last`, or from
    /// nowhere while `path` is empty, on to `at`.
    proof fn lemma_descend(&self, key: i32, path: Set<usize>, last: usize, at: usize)
        requires
            self.shape_ok(),
            at < self.size(),
            !path.contains(at),
            (Some(at) == self.root_id() && path == Set::<usize>::empty()) || (self.descends(
                key,
                path,
                last,
            ) && Some(at) == self.nodes()[last as int].child(
                Dir::side_of(key, self.nodes()[last as int].key),
            )),
        ensures
            self.descends(key, path.insert(at), at),
            ({
                let next = self.nodes()[at as int].child(
                    Dir::side_of(key, self.nodes()[at as int].key),
                );
                &&& self.span(next).len() < self.spans()[at as int].len()
                &&& next matches Some(child) ==> child < self.size() && !path.insert(at).contains(
                    child,
                )
            }),
    {
        let grown = path.insert(at);
        let node = self.nodes()[at as int];
        assert(self.node_linked(at));
        self.lemma_child_shorter(at);
        if let Some(child) = node.left {
            assert(self.node_linked(child));
            if path.contains(child) {
                assert(self.on_path(key, path, last, child));
            }
        }
        if let Some(child) = node.right {
            assert(self.node_linked(child));
            if path.contains(child) {
                assert(self.on_path(key, path, last, child));
            }
        }
        if path == Set::<usize>::empty() {
            assert(self.on_path(key, grown, at, at));
        } else {
            assert(self.on_path(key, path, last, last));
            assert(self.node_linked(last));
            assert(self.on_path(key, grown, at, at));
        }
        assert forall|id: usize| #[trigger] grown.contains(id) implies self.on_path(
            key,
            grown,
            at,
            id,
        ) by {
            if id != at {
                assert(path.contains(id));
                assert(self.on_path(key, path, last, id));
                assert(self.node_linked(id));
            }
        }
    }

    /// Hanging the leaf in changes no key.
    proof fn lemma_hung_keys(
        &self,
        before: &Tree,
        key: i32,
        path: Set<usize>,
        parent: usize,
        leaf: usize,
    )
        requires
            before.shape_ok(),
            self.leaf_hung_from(before, key, path, parent, leaf),
        ensures
            self.size() == before.size() + 1,
            self.keeps_keys(before),
            self.nodes()[leaf as int].key == key,
            parent < before.size(),
    {
        assert(before.on_path(key, path, parent, parent));
    }

    /// Once the leaf hangs in, a node on the way down to it lists its
    /// subtree in order.
    proof fn lemma_hung_path_listed(
        &self,
        before: &Tree,
        key: i32,
        path: Set<usize>,
        parent: usize,
        leaf: usize,
        id: usize,
    )
        requires
            before.shape_ok(),
            self.leaf_hung_from(before, key, path, parent, leaf),
            path.contains(id),
        ensures
            self.node_listed(id),
    {
        self.lemma_hung_keys(before, key, path, parent, leaf);
        let was = before.nodes()[id as int];
        let side = Dir::side_of(key, was.key);
        let span = before.spans()[id as int];
        let left = before.span(was.left);
        let right = before.span(was.right);
        let next = was.child(side);
        let other = was.child(side.flip());
        assert(before.on_path(key, path, parent, id));
        assert(before.node_listed(id));
        assert(before.node_linked(id));
        let at = insertion_point(before.keys(before.span(next)), key) as int;
        lemma_point_bounded(before.keys(before.span(next)), key);
        let point = insertion_point(before.keys(span), key) as int;
        lemma_point_bounded(before.keys(span), key);
        assert(self.spans()[id as int] == span.insert(point, leaf));
        assert(self.span(self.nodes()[id as int].child(side.flip())) == before.span(other)) by {
            if let Some(child) = other {
                assert(self.spans()[child as int] == before.spans()[child as int]);
            }
        }
        assert(self.span(self.nodes()[id as int].child(side)) == before.span(next).insert(
            at,
            leaf,
        )) by {
            if id == parent {
                assert(self.nodes()[id as int].child(side) == Some(leaf));
                assert(before.span(next) =~= Seq::<usize>::empty());
                assert(before.keys(before.span(next)) =~= Seq::<i32>::empty());
                assert(seq![leaf] =~= before.span(next).insert(0, leaf));
            } else {
                let child = next.unwrap();
                assert(self.nodes()[id as int].child(side) == next);
                assert(self.spans()[child as int] == before.span_with_leaf(
                    key,
                    path,
                    leaf,
                    child as int,
                ));
            }
        }
        before.lemma_keys_joined(left, id, right);
        match side {
            Dir::Right => {
                lemma_point_right(before.keys(left), was.key, before.keys(right), key);
                lemma_joined_insert_right(left, id, right, at, leaf);
            },
            Dir::Left => {
                lemma_point_left(before.keys(left), was.key, before.keys(right), key);
                lemma_joined_insert_left(left, id, right, at, leaf);
            },
        }
        self.lemma_keys_inserted(before, span, point, leaf);
        lemma_sorted_insert_sorted(before.keys(span), key);
        lemma_insert_fresh(span, before.size(), point, leaf);
    }

    /// Once the leaf hangs in, a node off the way down to it lists its
    /// subtree as before, and the leaf lists itself.
    proof fn lemma_hung_other_listed(
        &self,
        before: &Tree,
        key: i32,
        path: Set<usize>,
        parent: usize,
        leaf: usize,
        id: usize,
    )
        requires
            before.shape_ok(),
            self.leaf_hung_from(before, key, path, parent, leaf),
            id <= before.size(),
            !path.contains(id),
        ensures
            self.node_listed(id),
    {
        self.lemma_hung_keys(before, key, path, parent, leaf);
        if id == leaf {
            reveal(ids_below);
            lemma_short_sorted(self.keys(seq![leaf]));
            assert(seq![leaf] =~= joined(Seq::empty(), leaf, Seq::empty()));
            assert(self.spans()[leaf as int] == seq![leaf]);
        } else {
            let was = before.nodes()[id as int];
            let span = before.spans()[id as int];
            assert(before.node_listed(id));
            assert(before.node_linked(id));
            assert(self.nodes()[id as int] == was);
            assert(self.spans()[id as int] == span);
            if let Some(child) = was.left {
                if path.contains(child) {
                    assert(before.on_path(key, path, parent, child));
                }
                assert(self.spans()[child as int] == before.spans()[child as int]);
            }
            if let Some(child) = was.right {
                if path.contains(child) {
                    assert(before.on_path(key, path, parent, child));
                }
                assert(self.spans()[child as int] == before.spans()[child as int]);
            }
            self.lemma_keys_same(before, span);
            lemma_ids_below_more(span, before.size(), self.size());
        }
    }

    /// Once the leaf hangs in, the links of every node agree with its
    /// neighbours'.
    proof fn lemma_hung_linked(
        &self,
        before: &Tree,
        key: i32,
        path: Set<usize>,
        parent: usize,
        leaf: usize,
        id: usize,
    )
        requires
            before.shape_ok(),
            self.leaf_hung_from(before, key, path, parent, leaf),
            id <= before.size(),
        ensures
            self.node_linked(id),
    {
        self.lemma_hung_keys(before, key, path, parent, leaf);
        if id != leaf {
            let was = before.nodes()[id as int];
            assert(before.node_linked(id));
            if let Some(child) = was.left {
                assert(self.nodes()[child as int].parent == before.nodes()[child as int].parent);
            }
            if let Some(child) = was.right {
                assert(self.nodes()[child as int].parent == before.nodes()[child as int].parent);
            }
            if let Some(up) = was.parent {
                assert(before.node_linked(up));
            }
        }
    }

    /// Once the leaf hangs in, every node is balanced, and a red node has
    /// no red child but the leaf.
    proof fn lemma_hung_colored(
        &self,
        before: &Tree,
        key: i32,
        path: Set<usize>,
        parent: usize,
        leaf: usize,
        id: usize,
    )
        requires
            before.wf(),
            self.leaf_hung_from(before, key, path, parent, leaf),
            id <= before.size(),
        ensures
            self.node_balanced(id),
            self.node_colored_except(id, leaf),
    {
        self.lemma_hung_keys(before, key, path, parent, leaf);
        if id != leaf {
            let was = before.nodes()[id as int];
            assert(before.node_linked(id));
            assert(before.node_balanced(id));
            assert(before.node_colored(id));
            if let Some(child) = was.left {
                assert(self.nodes()[child as int].color == before.nodes()[child as int].color);
            }
            if let Some(child) = was.right {
                assert(self.nodes()[child as int].color == before.nodes()[child as int].color);
            }
        }
    }

    /// Once the leaf hangs in, the tree is a red-black tree but for the
    /// leaf, and the leaf stands in order where its key belongs.
    proof fn lemma_hung(
        &self,
        before: &Tree,
        key: i32,
        path: Set<usize>,
        parent: usize,
        leaf: usize,
    )
        requires
            before.wf(),
            self.leaf_hung_from(before, key, path, parent, leaf),
        ensures
            self.wf_except(leaf),
            self.size() == before.size() + 1,
            self.keeps_keys(before),
            self.nodes()[leaf as int].key == key,
            self.order() == before.order().insert(
                insertion_point(before.key_seq(), key) as int,
                leaf,
            ),
    {
        self.lemma_hung_keys(before, key, path, parent, leaf);
        assert forall|id: usize| id < self.size() implies #[trigger] self.node_listed(id) by {
            if path.contains(id) {
                self.lemma_hung_path_listed(before, key, path, parent, leaf, id);
            } else {
                self.lemma_hung_other_listed(before, key, path, parent, leaf, id);
            }
        }
        assert forall|id: usize| id < self.size() implies #[trigger] self.node_linked(id) by {
            self.lemma_hung_linked(before, key, path, parent, leaf, id);
        }
        assert forall|id: usize| id < self.size() implies #[trigger] self.node_balanced(id) by {
            self.lemma_hung_colored(before, key, path, parent, leaf, id);
        }
        assert forall|id: usize| id < self.size() implies #[trigger] self.node_colored_except(
            id,
            leaf,
        ) by {
            self.lemma_hung_colored(before, key, path, parent, leaf, id);
        }
        let root = before.root_id().unwrap();
        assert(before.on_path(key, path, parent, root));
        assert(before.node_listed(root));
        let point = insertion_point(before.key_seq(), key) as int;
        lemma_point_bounded(before.key_seq(), key);
        lemma_insert_fresh(before.spans()[root as int], before.size(), point, leaf);
        assert(self.spans()[root as int] == before.spans()[root as int].insert(point, leaf));
    }
}

} // verus!
