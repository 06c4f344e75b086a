use vstd::prelude::*;
use crate::color::Color;
use crate::shape::joined;
use crate::tree::Tree;

verus! {

impl Tree {
    /// Appends key and colour of every node that hangs in `slot` to `out`:
    /// first what is to the left of the node in `slot`, then the node, then
    /// what is to its right.
    pub fn inorder(&self, slot: Option<usize>, out: &mut Vec<(i32, Color)>)
        requires
            self.wf(),
            slot matches Some(id) ==> id < self.size(),
        ensures
            final(out)@ == old(out)@ + self.entries(self.span(slot)),
        decreases self.span(slot).len(),
    {
        match slot {
            None => {
                proof {
                    assert(old(out)@ + self.entries(self.span(slot)) =~= old(out)@);
                }
            },
            Some(id) => {
                let node = self.node(id);
                proof {
                    assert(self.node_linked(id));
                    assert(self.node_listed(id));
                    self.lemma_child_shorter(id);
                }
                self.inorder(node.left, out);
                out.push((node.key, node.color));
                self.inorder(node.right, out);
                proof {
                    self.lemma_entries_joined(self.span(node.left), id, self.span(node.right));
                    assert(final(out)@ =~= old(out)@ + self.entries(self.span(slot)));
                }
            },
        }
    }

    /// Key and colour of every node, in ascending order of the keys.
    pub fn traverse(&self) -> (out: Vec<(i32, Color)>)
        requires
            self.wf(),
        ensures
            out@ == self@,
    {
        let mut out = Vec::new();
        self.inorder(self.root(), &mut out);
        proof {
            assert(Seq::<(i32, Color)>::empty() + self@ =~= self@);
        }
        out
    }

    /// The entries of a joined listing.
    proof fn lemma_entries_joined(&self, left: Seq<usize>, id: usize, right: Seq<usize>)
        ensures
            self.entries(joined(left, id, right)) == self.entries(left).push(
                (self.nodes()[id as int].key, self.nodes()[id as int].color),
            ) + self.entries(right),
    {
        assert(self.entries(joined(left, id, right)) =~= self.entries(left).push(
            (self.nodes()[id as int].key, self.nodes()[id as int].color),
        ) + self.entries(right));
    }
}

} // verus!
