//! Rolling the metrics of a forest up from the children to their parents.

use crate::tree::{lemma_view_of_push, Forest, Node, Tree, TreeView};
use vstd::prelude::*;

verus! {

/// The record `node` after it has taken up, one after the other, the records
/// at the roots of `children`.
pub open spec fn absorb_all<N: Node>(node: N, children: Seq<TreeView<N>>) -> N
    decreases children.len(),
{
    if children.len() == 0 {
        node
    } else {
        absorb_all(node, children.drop_last()).merged(children.last().node)
    }
}

/// The tree with the metrics of all descendants rolled up: its children are
/// accumulated first, and its record then takes up the record of each child.
pub open spec fn accumulated_tree<N: Node>(tree: TreeView<N>) -> TreeView<N>
    decreases tree,
{
    let children = accumulated(tree.children);
    TreeView { node: absorb_all(tree.node, children), children }
}

/// The trees, each with the metrics of its descendants rolled up.
pub open spec fn accumulated<N: Node>(trees: Seq<TreeView<N>>) -> Seq<TreeView<N>>
    decreases trees,
{
    Seq::new(
        trees.len(),
        |i: int|
            if 0 <= i < trees.len() {
                accumulated_tree(trees[i])
            } else {
                arbitrary()
            },
    )
}

impl<N: Node> Forest<N> {
    /// Rolls the metrics up: every record takes up the records of its
    /// children, which have taken up those of their own children before.
    pub fn compute_accumulate(&mut self)
        ensures
            final(self)@ == accumulated(old(self)@),
        decreases *old(self),
    {
        let ghost all = old(self)@;
        let mut trees: Vec<Tree<N>> = Vec::new();
        std::mem::swap(&mut self.0, &mut trees);
        for tree in it: trees.into_iter()
            invariant
                it.seq() == old(self).0@,
                all == old(self)@,
                self@ == accumulated(all.take(it.index() as int)),
        {
            let ghost before = *self;
            let mut tree = tree;
            let ghost given = tree@;
            tree.children.compute_accumulate();
            let ghost children = tree.children@;
            let mut j: usize = 0;
            while j < tree.children.0.len()
                invariant
                    j <= children.len(),
                    children.len() == tree.children.0@.len(),
                    tree.children@ == children,
                    tree.node == absorb_all(given.node, children.take(j as int)),
                decreases children.len() - j,
            {
                assert(children.take(j + 1).drop_last() =~= children.take(j as int));
                tree.node.accumulate_from(&tree.children.0[j].node);
                j = j + 1;
            }
            assert(children.take(j as int) =~= children);
            self.0.push(tree);
            proof {
                lemma_view_of_push(before, *self, tree);
            }
        }
    }
}

/// Taking up the records of children leaves the identifier as it was.
pub proof fn lemma_absorb_all_keeps_identity<N: Node>(node: N, children: Seq<TreeView<N>>)
    ensures
        absorb_all(node, children).spec_id() == node.spec_id(),
        absorb_all(node, children).spec_parent() == node.spec_parent(),
    decreases children.len(),
{
    if children.len() > 0 {
        lemma_absorb_all_keeps_identity(node, children.drop_last());
        absorb_all(node, children.drop_last()).merged_keeps_identity(children.last().node);
    }
}

} // verus!
