use vstd::prelude::*;
use crate::dir::Dir;
use crate::model::{rotated, side_in};
use crate::node::Node;
use crate::order::lemma_sorted_subrange;
use crate::shape::{joined, lemma_ids_below_piece, lemma_joined_back, lemma_joined_front};
use crate::tree::Tree;

verus! {

/// Whether `slot` holds the node `id`.
pub(crate) fn holds(slot: Option<usize>, id: usize) -> (yes: bool)
    ensures
        yes == (slot == Some(id)),
{
    match slot {
        Some(child) => child == id,
        None => false,
    }
}

impl Tree {
    /// The side on which node `id` hangs below its parent.
    pub open spec fn side(&self, id: usize) -> Dir {
        side_in(self.nodes(), id)
    }

    /// `self` is `before` with the subtree at `sub` rotated towards `dir`:
    /// the child of `sub` on the other side, the pivot, takes the place of
    /// `sub`; `sub` becomes the pivot's child on side `dir`; and what the
    /// pivot had on that side becomes the child of `sub` on the other side.
    /// Keys, colours and black counts stay as they are, and so does the
    /// order of the nodes. Without a pivot nothing moves.
    pub open spec fn rotated_from(&self, before: &Tree, sub: usize, dir: Dir) -> bool {
        let was = before.nodes()[sub as int];
        match was.child(dir.flip()) {
            None => {
                &&& self.nodes() == before.nodes()
                &&& self.root_id() == before.root_id()
                &&& self.spans() == before.spans()
                &&& self.heights() == before.heights()
            },
            Some(pivot) => {
                let inner = before.nodes()[pivot as int].child(dir);
                let up = was.parent;
                let sub_now = Node { parent: Some(pivot), ..was.with_child(dir.flip(), inner) };
                let listing = joined(before.span(sub_now.left), sub, before.span(sub_now.right));
                &&& self.size() == before.size()
                &&& self.nodes()[sub as int] == sub_now
                &&& self.nodes()[pivot as int] == (Node {
                    parent: up,
                    ..before.nodes()[pivot as int].with_child(dir, Some(sub))
                })
                &&& match inner {
                    Some(child) => self.nodes()[child as int] == (Node {
                        parent: Some(sub),
                        ..before.nodes()[child as int]
                    }),
                    None => true,
                }
                &&& match up {
                    Some(top) => self.nodes()[top as int] == before.nodes()[top as int].with_child(
                        before.side(sub),
                        Some(pivot),
                    ),
                    None => true,
                }
                &&& forall|id: usize|
                    id < before.size() && id != sub && id != pivot && Some(id) != inner && Some(id)
                        != up ==> #[trigger] self.nodes()[id as int] == before.nodes()[id as int]
                &&& self.root_id() == if up is None {
                    Some(pivot)
                } else {
                    before.root_id()
                }
                &&& self.spans() == before.spans().update(sub as int, listing).update(
                    pivot as int,
                    before.spans()[sub as int],
                )
                &&& self.heights() == before.heights()
            },
        }
    }

    /// The side on which node `id` hangs below its parent.
    pub fn direction(&self, id: usize) -> (dir: Dir)
        requires
            self.shape_ok(),
            id < self.size(),
            self.nodes()[id as int].parent is Some,
        ensures
            dir == self.side(id),
            self.nodes()[self.nodes()[id as int].parent.unwrap() as int].child(dir) == Some(id),
            self.nodes()[self.nodes()[id as int].parent.unwrap() as int].child(dir.flip()) != Some(
                id,
            ),
    {
        proof {
            assert(self.node_linked(id));
            assert(self.node_linked(self.nodes()[id as int].parent.unwrap()));
        }
        let up = self.node(id).parent.unwrap();
        if holds(self.node(up).left, id) {
            Dir::Left
        } else {
            Dir::Right
        }
    }

    /// Rotates the subtree at `sub` towards `dir`.
    pub(crate) fn rotate_subtree(&mut self, sub: usize, dir: Dir)
        requires
            old(self).shape_ok(),
            sub < old(self).size(),
        ensures
            (final(self).nodes(), final(self).root_id()) == rotated(
                old(self).nodes(),
                old(self).root_id(),
                sub,
                dir,
            ),
            final(self).rotated_from(old(self), sub, dir),
            final(self).shape_ok(),
            final(self).order() == old(self).order(),
            final(self).same_keys(old(self)),
    {
        let ghost before = *self;
        let opp = dir.opposite();
        let new_root = self.node(sub).child(opp);
        if new_root.is_none() {
            return ;
        }
        proof {
            before.lemma_around_pivot(sub, dir);
        }
        let pivot = new_root.unwrap();
        let new_child = self.node(pivot).child(dir);
        let up = self.node(sub).parent;
        self.set_child(sub, opp, new_child);
        if new_child.is_some() {
            self.set_parent(new_child.unwrap(), Some(sub));
        }
        self.set_parent(pivot, up);
        if up.is_none() {
            self.set_root(Some(pivot));
        } else {
            let top = up.unwrap();
            let side = if holds(self.node(top).left, sub) {
                Dir::Left
            } else {
                Dir::Right
            };
            self.set_child(top, side, Some(pivot));
        }
        self.set_child(pivot, dir, Some(sub));
        self.set_parent(sub, Some(pivot));
        let ghost sub_now = self.nodes()[sub as int];
        let ghost listing = joined(before.span(sub_now.left), sub, before.span(sub_now.right));
        self.set_spans(
            Ghost(
                before.spans().update(sub as int, listing).update(
                    pivot as int,
                    before.spans()[sub as int],
                ),
            ),
        );
        proof {
            assert(self.rotated_from(&before, sub, dir));
            assert(self.nodes() =~= rotated(before.nodes(), before.root_id(), sub, dir).0);
            self.lemma_rotation_listed(&before, sub, dir);
            self.lemma_rotation_linked(&before, sub, dir);
        }
    }

    /// The listing of a child is shorter than that of its parent.
    pub(crate) proof fn lemma_child_shorter(&self, id: usize)
        requires
            self.shape_ok(),
            id < self.size(),
        ensures
            self.spans()[id as int].len() == self.span(self.nodes()[id as int].left).len() + 1
                + self.span(self.nodes()[id as int].right).len(),
            self.spans()[id as int].len() <= self.size(),
    {
        assert(self.node_listed(id));
    }

    /// The nodes that a rotation at `sub` touches exist and differ from
    /// one another.
    pub(crate) proof fn lemma_around_pivot(&self, sub: usize, dir: Dir)
        requires
            self.shape_ok(),
            sub < self.size(),
            self.nodes()[sub as int].child(dir.flip()) is Some,
        ensures
            ({
                let pivot = self.nodes()[sub as int].child(dir.flip()).unwrap();
                let inner = self.nodes()[pivot as int].child(dir);
                let up = self.nodes()[sub as int].parent;
                &&& pivot < self.size() && pivot != sub
                &&& self.nodes()[pivot as int].parent == Some(sub)
                &&& match inner {
                    Some(child) => child < self.size() && child != sub && child != pivot
                        && self.nodes()[child as int].parent == Some(pivot),
                    None => true,
                }
                &&& match up {
                    Some(top) => top < self.size() && top != sub && top != pivot && Some(top)
                        != inner && self.nodes()[top as int].child(self.side(sub)) == Some(sub)
                        && self.nodes()[top as int].child(self.side(sub).flip()) != Some(sub),
                    None => self.root_id() == Some(sub),
                }
            }),
    {
        let pivot = self.nodes()[sub as int].child(dir.flip()).unwrap();
        assert(self.node_linked(sub));
        self.lemma_child_shorter(sub);
        assert(self.node_linked(pivot));
        self.lemma_child_shorter(pivot);
        if let Some(top) = self.nodes()[sub as int].parent {
            assert(self.node_linked(top));
            self.lemma_child_shorter(top);
        }
    }

    /// A rotation leaves every key where it was.
    proof fn lemma_rotation_keys(&self, before: &Tree, sub: usize, dir: Dir)
        requires
            before.shape_ok(),
            sub < before.size(),
            before.nodes()[sub as int].child(dir.flip()) is Some,
            self.rotated_from(before, sub, dir),
        ensures
            self.same_keys(before),
    {
        before.lemma_around_pivot(sub, dir);
        let pivot = before.nodes()[sub as int].child(dir.flip()).unwrap();
        let inner = before.nodes()[pivot as int].child(dir);
        let up = before.nodes()[sub as int].parent;
        assert forall|id: usize| id < self.size() implies (#[trigger] self.nodes()[id as int]).key
            == before.nodes()[id as int].key by {
            if id != sub && id != pivot && Some(id) != inner && Some(id) != up {
                assert(self.nodes()[id as int] == before.nodes()[id as int]);
            }
        }
    }

    /// After a rotation the two nodes that changed places list their
    /// subtrees in order.
    proof fn lemma_rotation_pair_listed(&self, before: &Tree, sub: usize, dir: Dir)
        requires
            before.shape_ok(),
            sub < before.size(),
            before.nodes()[sub as int].child(dir.flip()) is Some,
            self.rotated_from(before, sub, dir),
            self.same_keys(before),
        ensures
            self.node_listed(sub),
            self.node_listed(before.nodes()[sub as int].child(dir.flip()).unwrap()),
    {
        before.lemma_around_pivot(sub, dir);
        let pivot = before.nodes()[sub as int].child(dir.flip()).unwrap();
        let inner = before.nodes()[pivot as int].child(dir);
        let near = before.nodes()[sub as int].child(dir);
        let far = before.nodes()[pivot as int].child(dir.flip());
        let whole = before.spans()[sub as int];
        let listing = self.spans()[sub as int];
        assert(before.node_listed(sub) && before.node_linked(sub));
        assert(before.node_listed(pivot) && before.node_linked(pivot));
        if let Some(child) = far {
            assert(before.node_listed(child));
            assert(self.spans()[child as int] == before.spans()[child as int]);
        }
        if let Some(child) = near {
            assert(before.node_listed(child));
            assert(self.spans()[child as int] == before.spans()[child as int]);
        }
        if let Some(child) = inner {
            assert(before.node_listed(child));
            assert(self.spans()[child as int] == before.spans()[child as int]);
        }
        assert(self.span(far) == before.span(far));
        assert(self.span(near) == before.span(near));
        assert(self.span(inner) == before.span(inner));
        assert(self.span(Some(sub)) == listing);
        assert(self.spans()[pivot as int] == whole);
        let (from, to): (int, int) = match dir {
            Dir::Left => {
                lemma_joined_front(
                    before.span(near),
                    sub,
                    before.span(inner),
                    pivot,
                    before.span(far),
                );
                (0, listing.len() as int)
            },
            Dir::Right => {
                lemma_joined_back(
                    before.span(far),
                    pivot,
                    before.span(inner),
                    sub,
                    before.span(near),
                );
                (whole.len() - listing.len(), whole.len() as int)
            },
        };
        assert(listing == whole.subrange(from, to));
        lemma_ids_below_piece(whole, before.size(), from, to);
        self.lemma_keys_same(before, whole);
        self.lemma_keys_piece(whole, from, to);
        lemma_sorted_subrange(before.keys(whole), from, to);
    }

    /// After a rotation a node that did not change places lists its subtree
    /// in order.
    proof fn lemma_rotation_other_listed(&self, before: &Tree, sub: usize, dir: Dir, id: usize)
        requires
            before.shape_ok(),
            sub < before.size(),
            before.nodes()[sub as int].child(dir.flip()) is Some,
            self.rotated_from(before, sub, dir),
            self.same_keys(before),
            id < before.size(),
            id != sub,
            id != before.nodes()[sub as int].child(dir.flip()).unwrap(),
        ensures
            self.node_listed(id),
    {
        before.lemma_around_pivot(sub, dir);
        let pivot = before.nodes()[sub as int].child(dir.flip()).unwrap();
        let inner = before.nodes()[pivot as int].child(dir);
        let up = before.nodes()[sub as int].parent;
        let node = before.nodes()[id as int];
        let span = before.spans()[id as int];
        assert(before.node_listed(id) && before.node_linked(id));
        assert(before.node_linked(sub) && before.node_linked(pivot));
        assert(self.spans()[id as int] == span);
        self.lemma_keys_same(before, span);
        assert(self.nodes()[id as int] == node || Some(id) == inner || Some(id) == up);
        if Some(id) == up {
            assert(self.span(Some(pivot)) == before.span(Some(sub)));
            let other = node.child(before.side(sub).flip());
            if let Some(child) = other {
                assert(self.spans()[child as int] == before.spans()[child as int]);
            }
            assert(self.span(other) == before.span(other));
            assert(self.span(self.nodes()[id as int].left) == before.span(node.left));
            assert(self.span(self.nodes()[id as int].right) == before.span(node.right));
        } else {
            assert(self.nodes()[id as int].left == node.left);
            assert(self.nodes()[id as int].right == node.right);
            if let Some(child) = node.left {
                assert(self.spans()[child as int] == before.spans()[child as int]);
            }
            if let Some(child) = node.right {
                assert(self.spans()[child as int] == before.spans()[child as int]);
            }
        }
    }

    /// After a rotation every node still lists its subtree in order, and the
    /// order of the whole tree is what it was.
    proof fn lemma_rotation_listed(&self, before: &Tree, sub: usize, dir: Dir)
        requires
            before.shape_ok(),
            sub < before.size(),
            before.nodes()[sub as int].child(dir.flip()) is Some,
            self.rotated_from(before, sub, dir),
        ensures
            self.same_keys(before),
            self.spans().len() == self.size(),
            forall|id: usize| id < self.size() ==> #[trigger] self.node_listed(id),
            self.order() == before.order(),
    {
        before.lemma_around_pivot(sub, dir);
        self.lemma_rotation_keys(before, sub, dir);
        self.lemma_rotation_pair_listed(before, sub, dir);
        let pivot = before.nodes()[sub as int].child(dir.flip()).unwrap();
        assert forall|id: usize| id < self.size() implies #[trigger] self.node_listed(id) by {
            if id != sub && id != pivot {
                self.lemma_rotation_other_listed(before, sub, dir, id);
            }
        }
        if let Some(root) = before.root_id() {
            assert(before.node_linked(sub));
        }
    }

    /// After a rotation the links of every node agree with its neighbours',
    /// and the root is the node without a parent.
    proof fn lemma_rotation_linked(&self, before: &Tree, sub: usize, dir: Dir)
        requires
            before.shape_ok(),
            sub < before.size(),
            before.nodes()[sub as int].child(dir.flip()) is Some,
            self.rotated_from(before, sub, dir),
            self.order() == before.order(),
        ensures
            forall|id: usize| id < self.size() ==> #[trigger] self.node_linked(id),
            match self.root_id() {
                Some(root) => {
                    &&& root < self.size()
                    &&& self.nodes()[root as int].parent is None
                    &&& self.spans()[root as int].len() == self.size()
                    &&& self.spans()[root as int].no_duplicates()
                },
                None => self.size() == 0,
            },
    {
        before.lemma_around_pivot(sub, dir);
        let pivot = before.nodes()[sub as int].child(dir.flip()).unwrap();
        let inner = before.nodes()[pivot as int].child(dir);
        let up = before.nodes()[sub as int].parent;
        assert(before.node_linked(sub));
        assert(before.node_linked(pivot));
        assert forall|id: usize| id < self.size() implies #[trigger] self.node_linked(id) by {
            assert(before.node_linked(id));
            let node = before.nodes()[id as int];
            if let Some(child) = node.left {
                assert(before.node_linked(child));
                assert(self.nodes()[child as int] == before.nodes()[child as int] || child == sub
                    || child == pivot || Some(child) == inner || Some(child) == up);
            }
            if let Some(child) = node.right {
                assert(before.node_linked(child));
                assert(self.nodes()[child as int] == before.nodes()[child as int] || child == sub
                    || child == pivot || Some(child) == inner || Some(child) == up);
            }
            if let Some(top) = node.parent {
                assert(before.node_linked(top));
                assert(self.nodes()[top as int] == before.nodes()[top as int] || top == sub || top
                    == pivot || Some(top) == inner || Some(top) == up);
            }
            assert(self.nodes()[id as int] == node || id == sub || id == pivot || Some(id) == inner
                || Some(id) == up);
        }
        if let Some(root) = before.root_id() {
            assert(before.node_linked(root));
        }
    }
}

} // verus!
