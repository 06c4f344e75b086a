use vstd::prelude::*;
use crate::color::Color;
use crate::dir::Dir;
use crate::model::{fixed, painted, root_painted, rotated};
use crate::node::Node;
use crate::rotate::holds;
use crate::tree::Tree;

verus! {

impl Tree {
    /// `self` is `before` with some nodes painted anew: links, keys, root and
    /// listings are the same.
    pub open spec fn recolored_from(&self, before: &Tree) -> bool {
        &&& self.size() == before.size()
        &&& self.root_id() == before.root_id()
        &&& self.spans() == before.spans()
        &&& forall|id: usize|
            id < self.size() ==> #[trigger] self.nodes()[id as int] == (Node {
                color: self.nodes()[id as int].color,
                ..before.nodes()[id as int]
            })
    }

    /// The red node `at` hangs below a red parent.
    pub open spec fn red_below_red(&self, at: usize) -> bool {
        &&& self.wf_except(at)
        &&& self.nodes()[at as int].parent is Some
        &&& self.nodes()[self.nodes()[at as int].parent.unwrap() as int].color == Color::Red
    }

    /// The parent of node `at`.
    pub open spec fn up(&self, at: usize) -> usize {
        self.nodes()[at as int].parent.unwrap()
    }

    /// The slot beside the parent of `at`: where its uncle would hang.
    pub open spec fn uncle_slot(&self, at: usize) -> Option<usize> {
        let parent = self.up(at);
        self.nodes()[self.up(parent) as int].child(self.side(parent).flip())
    }

    /// Repairs the tree after the red node `node` was hung into it: walks
    /// up from `node` while it has a red parent, recolouring where the uncle
    /// is red and restructuring once where it is not, and at last paints the
    /// root black. Nodes and root afterwards are those that `fixed` gives.
    pub(crate) fn insert_fix(&mut self, node: usize)
        requires
            old(self).wf_except(node),
        ensures
            (final(self).nodes(), final(self).root_id()) == fixed(
                old(self).nodes(),
                old(self).root_id(),
                node,
                old(self).size(),
            ),
            final(self).wf(),
            final(self).same_keys(old(self)),
            final(self).order() == old(self).order(),
    {
        let ghost before = *self;
        let ghost goal = fixed(before.nodes(), before.root_id(), node, before.size());
        let ghost mut fuel: nat = before.size();
        let mut node = node;
        let mut parent = self.node(node).parent;
        proof {
            assert(self.node_linked(node));
            self.lemma_child_shorter(node);
        }
        while parent.is_some() && self.node(parent.unwrap()).color == Color::Red
            invariant_except_break
                fixed(self.nodes(), self.root_id(), node, fuel) == goal,
                fuel + self.spans()[node as int].len() > self.size(),
            invariant
                self.wf_except(node),
                parent == self.nodes()[node as int].parent,
                parent is Some ==> parent.unwrap() < self.size(),
                self.same_keys(&before),
                self.order() == before.order(),
            ensures
                self.wf_except(node),
                parent == self.nodes()[node as int].parent,
                parent is Some ==> parent.unwrap() < self.size(),
                parent is None || self.nodes()[parent.unwrap() as int].color == Color::Black,
                self.same_keys(&before),
                self.order() == before.order(),
                (root_painted(self.nodes(), self.root_id()), self.root_id()) == goal,
            decreases self.size() - self.spans()[node as int].len(),
        {
            proof {
                self.lemma_red_parent(node);
            }
            let ghost pre = *self;
            let ghost low = node;
            let up = parent.unwrap();
            let grandparent = self.node(up).parent.unwrap();
            let dir = self.direction(up);
            let uncle = self.node(grandparent).child(dir.opposite());
            if uncle.is_none() || self.node(uncle.unwrap()).color == Color::Black {
                if holds(self.node(up).child(dir.opposite()), node) {
                    self.straighten(node);
                    node = up;
                }
                self.restructure(node);
                parent = self.node(node).parent;
                proof {
                    self.lemma_wf_weaken(node);
                    assert(self.node_linked(node));
                    assert((root_painted(self.nodes(), self.root_id()), self.root_id()) == fixed(
                        pre.nodes(),
                        pre.root_id(),
                        low,
                        fuel,
                    ));
                }
                break ;
            } else {
                self.recolor_upward(node);
                node = grandparent;
                parent = self.node(node).parent;
                proof {
                    assert(self.node_linked(node));
                    assert(fixed(pre.nodes(), pre.root_id(), low, fuel) == fixed(
                        self.nodes(),
                        self.root_id(),
                        grandparent,
                        (fuel - 1) as nat,
                    ));
                    fuel = (fuel - 1) as nat;
                }
            }
        }
        let ghost fixed = *self;
        let root = self.root();
        if root.is_some() {
            let top = root.unwrap();
            proof {
                assert(self.node_linked(node));
                assert(self.node_balanced(top));
            }
            let ghost lift = (1 - self.nodes()[top as int].color.weight()) as nat;
            self.set_color(top, Color::Black);
            self.set_heights(
                Ghost(fixed.heights().update(top as int, fixed.heights()[top as int] + lift)),
            );
            proof {
                assert(self.recolored_from(&fixed));
                self.lemma_recolored_shape(&fixed);
                assert forall|id: usize| id < self.size() implies #[trigger] self.node_balanced(
                    id,
                ) by {
                    self.lemma_root_painted(&fixed, node, id);
                }
                assert forall|id: usize| id < self.size() implies #[trigger] self.node_colored(
                    id,
                ) by {
                    self.lemma_root_painted(&fixed, node, id);
                }
            }
        }
    }

    /// Case of a red uncle: paints parent and uncle black and the grandparent
    /// red, which moves the flaw two levels up.
    fn recolor_upward(&mut self, node: usize)
        requires
            old(self).red_below_red(node),
            old(self).uncle_slot(node) is Some,
            !old(self).is_black(old(self).uncle_slot(node)),
        ensures
            final(self).nodes() == painted(
                painted(
                    painted(old(self).nodes(), old(self).up(node), Color::Black),
                    old(self).uncle_slot(node).unwrap(),
                    Color::Black,
                ),
                old(self).up(old(self).up(node)),
                Color::Red,
            ),
            final(self).root_id() == old(self).root_id(),
            final(self).wf_except(old(self).up(old(self).up(node))),
            final(self).recolored_from(old(self)),
            final(self).nodes()[old(self).up(node) as int].color == Color::Black,
            final(self).nodes()[old(self).uncle_slot(node).unwrap() as int].color == Color::Black,
            final(self).nodes()[old(self).up(old(self).up(node)) as int].color == Color::Red,
            forall|id: usize|
                id < old(self).size() && id != old(self).up(node) && Some(id) != old(
                    self,
                ).uncle_slot(node) && id != old(self).up(old(self).up(node)) ==> (
                #[trigger] final(self).nodes()[id as int]) == old(self).nodes()[id as int],
            final(self).same_keys(old(self)),
            final(self).order() == old(self).order(),
    {
        let ghost before = *self;
        proof {
            self.lemma_red_parent(node);
        }
        let parent = self.node(node).parent.unwrap();
        let grandparent = self.node(parent).parent.unwrap();
        let dir = self.direction(parent);
        let uncle = self.node(grandparent).child(dir.opposite()).unwrap();
        self.set_color(parent, Color::Black);
        self.set_color(uncle, Color::Black);
        self.set_color(grandparent, Color::Red);
        self.set_heights(
            Ghost(
                before.heights().update(parent as int, before.heights()[parent as int] + 1).update(
                    uncle as int,
                    before.heights()[uncle as int] + 1,
                ),
            ),
        );
        proof {
            assert(self.recolored_from(&before));
            self.lemma_recolored_shape(&before);
            assert forall|id: usize| id < self.size() implies #[trigger] self.node_balanced(
                id,
            ) by {
                self.lemma_recolored_upward(&before, node, id);
            }
            assert forall|id: usize| id < self.size() implies #[trigger] self.node_colored_except(
                id,
                grandparent,
            ) by {
                self.lemma_recolored_upward(&before, node, id);
            }
            assert(before.node_linked(node));
        }
    }

    /// Case of a black uncle, triangle: the node hangs on the inner side of
    /// its parent. Rotates the parent outwards, after which the parent hangs
    /// on the outer side of the node, and the flaw is the parent.
    fn straighten(&mut self, node: usize)
        requires
            old(self).red_below_red(node),
            old(self).is_black(old(self).uncle_slot(node)),
            old(self).side(node) != old(self).side(old(self).up(node)),
        ensures
            (final(self).nodes(), final(self).root_id()) == rotated(
                old(self).nodes(),
                old(self).root_id(),
                old(self).up(node),
                old(self).side(old(self).up(node)),
            ),
            final(self).rotated_from(
                old(self),
                old(self).up(node),
                old(self).side(old(self).up(node)),
            ),
            final(self).side(node) == old(self).side(old(self).up(node)),
            final(self).red_below_red(old(self).up(node)),
            final(self).up(old(self).up(node)) == node,
            final(self).is_black(final(self).uncle_slot(old(self).up(node))),
            final(self).side(old(self).up(node)) == final(self).side(node),
            final(self).same_keys(old(self)),
            final(self).order() == old(self).order(),
    {
        let ghost before = *self;
        proof {
            self.lemma_red_parent(node);
        }
        let parent = self.node(node).parent.unwrap();
        let dir = self.direction(parent);
        self.rotate_subtree(parent, dir);
        proof {
            self.lemma_straightened_links(&before, node);
            assert forall|id: usize| id < self.size() implies #[trigger] self.node_balanced(
                id,
            ) by {
                self.lemma_straightened(&before, node, id);
            }
            assert forall|id: usize| id < self.size() implies #[trigger] self.node_colored_except(
                id,
                parent,
            ) by {
                self.lemma_straightened(&before, node, id);
            }
        }
    }

    /// Case of a black uncle, line: the node hangs on the outer side of its
    /// parent. Paints the parent black and the grandparent red and rotates
    /// the grandparent inwards, so that the parent takes its place.
    fn restructure(&mut self, node: usize)
        requires
            old(self).red_below_red(node),
            old(self).is_black(old(self).uncle_slot(node)),
            old(self).side(node) == old(self).side(old(self).up(node)),
        ensures
            (final(self).nodes(), final(self).root_id()) == rotated(
                painted(
                    painted(old(self).nodes(), old(self).up(node), Color::Black),
                    old(self).up(old(self).up(node)),
                    Color::Red,
                ),
                old(self).root_id(),
                old(self).up(old(self).up(node)),
                old(self).side(old(self).up(node)).flip(),
            ),
            final(self).wf(),
            final(self).nodes()[node as int].color == Color::Red,
            final(self).nodes()[node as int].parent == old(self).nodes()[node as int].parent,
            final(self).nodes()[old(self).up(node) as int].color == Color::Black,
            final(self).same_keys(old(self)),
            final(self).order() == old(self).order(),
    {
        let ghost before = *self;
        proof {
            self.lemma_red_parent(node);
        }
        let parent = self.node(node).parent.unwrap();
        let grandparent = self.node(parent).parent.unwrap();
        let dir = self.direction(parent);
        self.set_color(parent, Color::Black);
        self.set_color(grandparent, Color::Red);
        self.set_heights(
            Ghost(
                before.heights().update(parent as int, before.heights()[parent as int] + 1).update(
                    grandparent as int,
                    (before.heights()[grandparent as int] - 1) as nat,
                ),
            ),
        );
        let ghost painted = *self;
        proof {
            assert(self.recolored_from(&before));
            self.lemma_recolored_shape(&before);
        }
        self.rotate_subtree(grandparent, dir.opposite());
        proof {
            self.lemma_restructured_links(&before, &painted, node);
            assert forall|id: usize| id < self.size() implies #[trigger] self.node_balanced(
                id,
            ) by {
                self.lemma_restructured(&before, &painted, node, id);
            }
            assert forall|id: usize| id < self.size() implies #[trigger] self.node_colored(
                id,
            ) by {
                self.lemma_restructured(&before, &painted, node, id);
            }
        }
    }

    /// A red-black tree is one but for any of its red nodes.
    proof fn lemma_wf_weaken(&self, at: usize)
        requires
            self.wf(),
            at < self.size(),
            self.nodes()[at as int].color == Color::Red,
        ensures
            self.wf_except(at),
    {
        assert forall|id: usize| id < self.size() implies #[trigger] self.node_colored_except(
            id,
            at,
        ) by {
            assert(self.node_colored(id));
        }
    }

    /// Painting a node leaves its links and its listing as good as they were.
    proof fn lemma_recolored_node(&self, before: &Tree, id: usize)
        requires
            before.shape_ok(),
            self.recolored_from(before),
            self.same_keys(before),
            id < self.size(),
        ensures
            self.node_linked(id),
            self.node_listed(id),
    {
        let was = before.nodes()[id as int];
        let now = self.nodes()[id as int];
        assert(before.node_linked(id));
        assert(before.node_listed(id));
        assert(now.left == was.left && now.right == was.right && now.parent == was.parent);
        if let Some(child) = was.left {
            assert(self.nodes()[child as int].parent == before.nodes()[child as int].parent);
        }
        if let Some(child) = was.right {
            assert(self.nodes()[child as int].parent == before.nodes()[child as int].parent);
        }
        if let Some(top) = was.parent {
            assert(self.nodes()[top as int].left == before.nodes()[top as int].left);
            assert(self.nodes()[top as int].right == before.nodes()[top as int].right);
        }
        self.lemma_keys_same(before, before.spans()[id as int]);
    }

    /// Painting nodes leaves the shape of the tree as it was.
    proof fn lemma_recolored_shape(&self, before: &Tree)
        requires
            before.shape_ok(),
            self.recolored_from(before),
        ensures
            self.shape_ok(),
            self.same_keys(before),
            self.order() == before.order(),
    {
        assert(self.same_keys(before)) by {
            assert forall|id: usize| id < self.size() implies (#[trigger] self.nodes()[id as int]).key
                == before.nodes()[id as int].key by {}
        }
        assert forall|id: usize| id < self.size() implies #[trigger] self.node_linked(id) by {
            self.lemma_recolored_node(before, id);
        }
        assert forall|id: usize| id < self.size() implies #[trigger] self.node_listed(id) by {
            self.lemma_recolored_node(before, id);
        }
        if let Some(root) = self.root_id() {
            assert(self.nodes()[root as int].parent == before.nodes()[root as int].parent);
        }
    }

    /// What stands around a red node below a red parent: a black
    /// grandparent, with the parent on one side and the uncle's slot on the
    /// other, all of them different nodes.
    proof fn lemma_red_parent(&self, at: usize)
        requires
            self.red_below_red(at),
        ensures
            ({
                let parent = self.up(at);
                let grand = self.up(parent);
                let uncle = self.uncle_slot(at);
                &&& parent < self.size() && parent != at
                &&& self.nodes()[parent as int].parent is Some
                &&& grand < self.size() && grand != at && grand != parent
                &&& self.nodes()[grand as int].color == Color::Black
                &&& self.nodes()[parent as int].child(self.side(at)) == Some(at)
                &&& self.nodes()[parent as int].child(self.side(at).flip()) != Some(at)
                &&& self.nodes()[grand as int].child(self.side(parent)) == Some(parent)
                &&& uncle != Some(at) && uncle != Some(parent) && uncle != Some(grand)
                &&& self.link_ok(grand, uncle)
                &&& self.spans()[at as int].len() < self.spans()[parent as int].len()
                &&& self.spans()[parent as int].len() < self.spans()[grand as int].len()
                &&& self.spans()[grand as int].len() <= self.size()
                &&& self.root_id() != Some(at) && self.root_id() != Some(parent)
                &&& self.is_black(self.root_id())
            }),
    {
        let parent = self.up(at);
        assert(self.node_linked(at));
        assert(self.node_linked(parent));
        self.lemma_child_shorter(parent);
        assert(self.node_colored_except(parent, at));
        if self.nodes()[parent as int].parent is None {
            assert(self.root_id() == Some(parent));
            assert(false);
        }
        let grand = self.up(parent);
        assert(self.node_linked(grand));
        self.lemma_child_shorter(grand);
        assert(self.node_colored_except(grand, at));
        if let Some(root) = self.root_id() {
            assert(self.node_linked(root));
        }
        if let Some(uncle) = self.uncle_slot(at) {
            assert(self.node_linked(uncle));
        }
    }

    /// After the recolouring for a red uncle, node `id` is balanced, and it
    /// has no red child if it is red, unless that child is the grandparent.
    proof fn lemma_recolored_upward(&self, before: &Tree, at: usize, id: usize)
        requires
            before.red_below_red(at),
            before.uncle_slot(at) is Some,
            !before.is_black(before.uncle_slot(at)),
            self.recolored_from(before),
            id < self.size(),
            ({
                let parent = before.up(at);
                let grand = before.up(parent);
                let uncle = before.uncle_slot(at).unwrap();
                &&& self.nodes()[parent as int].color == Color::Black
                &&& self.nodes()[uncle as int].color == Color::Black
                &&& self.nodes()[grand as int].color == Color::Red
                &&& forall|other: usize|
                    other < self.size() && other != parent && other != uncle && other != grand ==> (
                    #[trigger] self.nodes()[other as int]).color == before.nodes()[other as int].color
                &&& self.heights() == before.heights().update(
                    parent as int,
                    before.heights()[parent as int] + 1,
                ).update(uncle as int, before.heights()[uncle as int] + 1)
            }),
        ensures
            self.node_balanced(id),
            self.node_colored_except(id, before.up(before.up(at))),
    {
        before.lemma_red_parent(at);
        let parent = before.up(at);
        let grand = before.up(parent);
        let uncle = before.uncle_slot(at).unwrap();
        let was = before.nodes()[id as int];
        assert(before.node_balanced(id));
        assert(before.node_colored_except(id, at));
        assert(before.node_linked(id));
        assert(before.node_linked(grand));
        assert(self.nodes()[id as int].left == was.left);
        assert(self.nodes()[id as int].right == was.right);
        if let Some(child) = was.left {
            assert(self.nodes()[child as int].color == before.nodes()[child as int].color || child
                == parent || child == uncle || child == grand);
        }
        if let Some(child) = was.right {
            assert(self.nodes()[child as int].color == before.nodes()[child as int].color || child
                == parent || child == uncle || child == grand);
        }
        assert(self.nodes()[id as int].color == was.color || id == parent || id == uncle || id
            == grand);
    }

    /// After the root was painted black, node `id` is balanced and has no
    /// red child if it is red.
    proof fn lemma_root_painted(&self, before: &Tree, at: usize, id: usize)
        requires
            before.wf_except(at),
            before.nodes()[at as int].parent is None || before.nodes()[before.up(
                at,
            ) as int].color == Color::Black,
            before.root_id() is Some,
            self.recolored_from(before),
            id < self.size(),
            ({
                let root = before.root_id().unwrap();
                &&& self.nodes()[root as int].color == Color::Black
                &&& forall|other: usize|
                    other < self.size() && other != root ==> (
                    #[trigger] self.nodes()[other as int]).color == before.nodes()[other as int].color
                &&& self.heights() == before.heights().update(
                    root as int,
                    before.heights()[root as int] + (1 - before.nodes()[root as int].color.weight()) as nat,
                )
            }),
        ensures
            self.node_balanced(id),
            self.node_colored(id),
    {
        let root = before.root_id().unwrap();
        let was = before.nodes()[id as int];
        assert(before.node_balanced(id));
        assert(before.node_colored_except(id, at));
        assert(before.node_linked(id));
        assert(before.node_linked(at));
        assert(self.nodes()[id as int].left == was.left);
        assert(self.nodes()[id as int].right == was.right);
        if let Some(child) = was.left {
            assert(self.nodes()[child as int].color == before.nodes()[child as int].color);
        }
        if let Some(child) = was.right {
            assert(self.nodes()[child as int].color == before.nodes()[child as int].color);
        }
        assert(self.nodes()[id as int].color == was.color || id == root);
    }

    /// What the rotation of the triangle case leaves around the old parent.
    proof fn lemma_straightened_links(&self, before: &Tree, at: usize)
        requires
            before.red_below_red(at),
            before.is_black(before.uncle_slot(at)),
            before.side(at) != before.side(before.up(at)),
            self.rotated_from(before, before.up(at), before.side(before.up(at))),
            self.shape_ok(),
        ensures
            self.heights().len() == self.size(),
            before.up(at) < self.size(),
            self.nodes()[before.up(at) as int].color == Color::Red,
            self.nodes()[before.up(at) as int].parent == Some(at),
            self.nodes()[at as int].color == Color::Red,
            self.nodes()[at as int].parent == before.nodes()[before.up(at) as int].parent,
            self.side(at) == before.side(before.up(at)),
            self.side(before.up(at)) == before.side(before.up(at)),
            self.uncle_slot(before.up(at)) == before.uncle_slot(at),
            self.is_black(self.uncle_slot(before.up(at))),
            self.is_black_or(self.root_id(), before.up(at)),
    {
        before.lemma_red_parent(at);
        let parent = before.up(at);
        let grand = before.up(parent);
        let dir = before.side(parent);
        before.lemma_around_pivot(parent, dir);
        assert(before.nodes()[parent as int].child(dir.flip()) == Some(at));
        assert(self.node_linked(at));
        assert(self.node_linked(parent));
        assert(before.node_linked(grand));
        if let Some(uncle) = before.uncle_slot(at) {
            assert(before.node_linked(uncle));
            assert(self.nodes()[uncle as int] == before.nodes()[uncle as int]);
        }
        if let Some(root) = before.root_id() {
            assert(before.node_linked(root));
            assert(self.nodes()[root as int].color == before.nodes()[root as int].color);
        }
    }

    /// After the rotation of the triangle case, node `id` is balanced, and
    /// it has no red child if it is red, unless that child is the old parent.
    proof fn lemma_straightened(&self, before: &Tree, at: usize, id: usize)
        requires
            before.red_below_red(at),
            before.is_black(before.uncle_slot(at)),
            before.side(at) != before.side(before.up(at)),
            self.rotated_from(before, before.up(at), before.side(before.up(at))),
            id < self.size(),
        ensures
            self.node_balanced(id),
            self.node_colored_except(id, before.up(at)),
    {
        before.lemma_red_parent(at);
        let parent = before.up(at);
        let grand = before.up(parent);
        let dir = before.side(parent);
        before.lemma_around_pivot(parent, dir);
        assert(before.nodes()[parent as int].child(dir.flip()) == Some(at));
        let inner = before.nodes()[at as int].child(dir);
        let was = before.nodes()[id as int];
        assert(before.node_balanced(id) && before.node_colored_except(id, at));
        assert(before.node_balanced(at) && before.node_colored_except(at, at));
        assert(before.node_balanced(parent) && before.node_colored_except(parent, at));
        assert(before.node_balanced(grand));
        assert(before.node_linked(id));
        assert(before.node_linked(parent));
        assert(self.nodes()[id as int] == was || id == at || id == parent || id == grand || Some(id)
            == inner);
        if let Some(child) = was.left {
            assert(self.nodes()[child as int].color == before.nodes()[child as int].color);
        }
        if let Some(child) = was.right {
            assert(self.nodes()[child as int].color == before.nodes()[child as int].color);
        }
        if let Some(child) = inner {
            assert(self.nodes()[child as int].color == before.nodes()[child as int].color);
        }
        assert(self.nodes()[at as int].color == before.nodes()[at as int].color);
        assert(self.nodes()[parent as int].color == before.nodes()[parent as int].color);
    }

    /// What the rotation of the line case leaves around the node.
    proof fn lemma_restructured_links(&self, before: &Tree, painted: &Tree, at: usize)
        requires
            before.red_below_red(at),
            before.is_black(before.uncle_slot(at)),
            before.side(at) == before.side(before.up(at)),
            painted.recolored_from(before),
            painted.shape_ok(),
            self.shape_ok(),
            self.rotated_from(
                painted,
                before.up(before.up(at)),
                before.side(before.up(at)).flip(),
            ),
            ({
                let parent = before.up(at);
                let grand = before.up(parent);
                &&& painted.nodes()[parent as int].color == Color::Black
                &&& forall|other: usize|
                    other < painted.size() && other != parent && other != grand ==> (
                    #[trigger] painted.nodes()[other as int]).color
                        == before.nodes()[other as int].color
            }),
        ensures
            self.nodes()[at as int].color == before.nodes()[at as int].color,
            self.nodes()[at as int].parent == before.nodes()[at as int].parent,
            self.nodes()[before.up(at) as int].color == Color::Black,
            self.is_black(self.root_id()),
    {
        before.lemma_red_parent(at);
        let parent = before.up(at);
        let grand = before.up(parent);
        let dir = before.side(parent);
        assert(painted.nodes()[grand as int].child(dir) == Some(parent));
        painted.lemma_around_pivot(grand, dir.flip());
        assert(painted.nodes()[at as int].parent == Some(parent));
        assert(painted.nodes()[parent as int].child(dir) == Some(at));
        assert(painted.nodes()[parent as int].child(dir.flip()) != Some(at));
        if let Some(top) = painted.nodes()[grand as int].parent {
            painted.lemma_child_shorter(top);
            assert(painted.node_linked(grand));
            assert(top != at);
        }
        assert(self.nodes()[at as int] == painted.nodes()[at as int]);
        if painted.nodes()[grand as int].parent is Some {
            if let Some(root) = before.root_id() {
                assert(before.node_linked(root));
                assert(painted.nodes()[root as int].color == before.nodes()[root as int].color);
                assert(self.nodes()[root as int].color == painted.nodes()[root as int].color);
            }
        }
    }

    /// After the line case, node `id` is balanced and has no red child if it
    /// is red.
    proof fn lemma_restructured(&self, before: &Tree, painted: &Tree, at: usize, id: usize)
        requires
            before.red_below_red(at),
            before.is_black(before.uncle_slot(at)),
            before.side(at) == before.side(before.up(at)),
            painted.recolored_from(before),
            painted.shape_ok(),
            self.rotated_from(
                painted,
                before.up(before.up(at)),
                before.side(before.up(at)).flip(),
            ),
            id < self.size(),
            ({
                let parent = before.up(at);
                let grand = before.up(parent);
                &&& painted.nodes()[parent as int].color == Color::Black
                &&& painted.nodes()[grand as int].color == Color::Red
                &&& forall|other: usize|
                    other < self.size() && other != parent && other != grand ==> (
                    #[trigger] painted.nodes()[other as int]).color
                        == before.nodes()[other as int].color
                &&& painted.heights() == before.heights().update(
                    parent as int,
                    before.heights()[parent as int] + 1,
                ).update(grand as int, (before.heights()[grand as int] - 1) as nat)
            }),
        ensures
            self.node_balanced(id),
            self.node_colored(id),
    {
        before.lemma_red_parent(at);
        let parent = before.up(at);
        let grand = before.up(parent);
        let dir = before.side(parent);
        assert(painted.nodes()[grand as int].child(dir) == Some(parent));
        painted.lemma_around_pivot(grand, dir.flip());
        let inner = painted.nodes()[parent as int].child(dir.flip());
        let top = painted.nodes()[grand as int].parent;
        let was = before.nodes()[id as int];
        assert(before.node_balanced(id) && before.node_colored_except(id, at));
        assert(before.node_balanced(parent) && before.node_colored_except(parent, at));
        assert(before.node_balanced(grand));
        assert(before.node_linked(id));
        assert(before.node_linked(parent) && before.node_linked(grand));
        assert(painted.nodes()[id as int].left == was.left && painted.nodes()[id as int].right
            == was.right);
        assert(self.nodes()[id as int] == painted.nodes()[id as int] || id == parent || id == grand
            || Some(id) == inner || Some(id) == top);
        if let Some(child) = was.left {
            assert(before.node_linked(child));
            assert(self.nodes()[child as int].color == painted.nodes()[child as int].color);
            assert(painted.nodes()[child as int].color == before.nodes()[child as int].color
                || child == parent || child == grand);
        }
        if let Some(child) = was.right {
            assert(before.node_linked(child));
            assert(self.nodes()[child as int].color == painted.nodes()[child as int].color);
            assert(painted.nodes()[child as int].color == before.nodes()[child as int].color
                || child == parent || child == grand);
        }
        assert(self.nodes()[id as int].color == painted.nodes()[id as int].color);
    }
}

} // verus!
