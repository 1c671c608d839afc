//! A forest of records that name their parent by identifier.

use vstd::prelude::*;

pub mod assembly;
pub mod filter;
pub mod identity;
pub mod lines;
pub mod order;
pub mod rollup;

verus! {

/// A record that can stand in a [`Forest`]: it has an identifier, may name a
/// parent by identifier, and can take up the metrics of another record.
pub trait Node: Sized {
    /// The record's identifier.
    spec fn spec_id(&self) -> u64;

    /// The identifier of the record's parent, if it has one.
    spec fn spec_parent(&self) -> Option<u64>;

    /// The record after it has taken up the metrics of `other`.
    spec fn merged(self, other: Self) -> Self;

    /// The record's identifier.
    fn id(&self) -> (id: u64)
        ensures
            id == self.spec_id(),
    ;

    /// The identifier of the record's parent, if it has one.
    fn parent(&self) -> (parent: Option<u64>)
        ensures
            parent == self.spec_parent(),
    ;

    /// Takes up the metrics of `other`.
    fn accumulate_from(&mut self, other: &Self)
        ensures
            *final(self) == old(self).merged(*other),
    ;

    /// Taking up another record changes neither identifier nor parent.
    proof fn merged_keeps_identity(self, other: Self)
        ensures
            self.merged(other).spec_id() == self.spec_id(),
            self.merged(other).spec_parent() == self.spec_parent(),
    ;
}

/// A record together with the trees of its children.
#[derive(Debug)]
pub struct Tree<N> {
    pub node: N,
    pub children: Forest<N>,
}

/// An ordered list of trees.
#[derive(Debug)]
pub struct Forest<N>(pub Vec<Tree<N>>);

/// A tree as a mathematical value: a record and the sequence of the trees of
/// its children. Contracts speak of forests as sequences of such trees.
pub struct TreeView<N> {
    pub node: N,
    pub children: Seq<TreeView<N>>,
}

/// The mathematical value of a tree.
pub open spec fn tree_view<N>(tree: Tree<N>) -> TreeView<N>
    decreases tree,
{
    TreeView { node: tree.node, children: forest_view(tree.children) }
}

/// The mathematical value of a forest: the values of its trees, in order.
pub open spec fn forest_view<N>(forest: Forest<N>) -> Seq<TreeView<N>>
    decreases forest,
{
    Seq::new(
        forest.0@.len(),
        |i: int|
            if 0 <= i < forest.0@.len() {
                tree_view(forest.0@[i])
            } else {
                arbitrary()
            },
    )
}

impl<N> View for Tree<N> {
    type V = TreeView<N>;

    open spec fn view(&self) -> TreeView<N> {
        tree_view(*self)
    }
}

impl<N> View for Forest<N> {
    type V = Seq<TreeView<N>>;

    open spec fn view(&self) -> Seq<TreeView<N>> {
        forest_view(*self)
    }
}

/// A forest that has one more tree at its end has one more value at its end.
pub proof fn lemma_view_of_push<N>(before: Forest<N>, after: Forest<N>, tree: Tree<N>)
    requires
        after.0@ == before.0@.push(tree),
    ensures
        after@ == before@.push(tree@),
{
}

/// A forest that has one more tree at a position has one more value there.
pub proof fn lemma_view_of_insert<N>(
    before: Forest<N>,
    after: Forest<N>,
    at: usize,
    tree: Tree<N>,
)
    requires
        at <= before.0@.len(),
        after.0@ == before.0@.insert(at as int, tree),
    ensures
        after@ == before@.insert(at as int, tree@),
{
}

/// The first elements of a sequence, as many as it has, are the sequence.
pub proof fn lemma_take_whole<T>(s: Seq<T>)
    ensures
        s.take(s.len() as int) == s,
{
}

/// The records of a tree in depth-first order, a parent before its children.
pub open spec fn tree_nodes<N>(tree: TreeView<N>) -> Seq<N>
    decreases tree,
{
    seq![tree.node] + forest_nodes(tree.children)
}

/// The records of a list of trees in depth-first order.
pub open spec fn forest_nodes<N>(trees: Seq<TreeView<N>>) -> Seq<N>
    decreases trees,
{
    if trees.len() == 0 {
        Seq::empty()
    } else {
        forest_nodes(trees.drop_last()) + tree_nodes(trees.last())
    }
}

/// The records of a list of trees with one more tree at its end.
pub proof fn lemma_nodes_of_push<N>(trees: Seq<TreeView<N>>, tree: TreeView<N>)
    ensures
        forest_nodes(trees.push(tree)) == forest_nodes(trees) + seq![tree.node] + forest_nodes(
            tree.children,
        ),
{
    let all = trees.push(tree);
    assert(all.drop_last() =~= trees);
    assert(forest_nodes(all) == forest_nodes(all.drop_last()) + tree_nodes(all.last()));
}

/// Whether `tree` is one of the trees or stands somewhere below one of them.
pub open spec fn occurs<N>(trees: Seq<TreeView<N>>, tree: TreeView<N>) -> bool
    decreases trees,
{
    exists|i: int|
        0 <= i < trees.len() && (#[trigger] trees[i] == tree || occurs(trees[i].children, tree))
}

/// A tree that occurs below a tree that occurs among the trees occurs among
/// them.
pub proof fn lemma_occurs_below<N>(trees: Seq<TreeView<N>>, parent: TreeView<N>, tree: TreeView<N>)
    requires
        occurs(trees, parent),
        occurs(parent.children, tree),
    ensures
        occurs(trees, tree),
    decreases trees,
{
    let i = choose|i: int|
        0 <= i < trees.len() && (#[trigger] trees[i] == parent || occurs(trees[i].children, parent));
    if trees[i] != parent {
        lemma_occurs_below(trees[i].children, parent, tree);
    }
}

/// The record at the root of a tree that occurs among the trees is one of
/// their records.
pub proof fn lemma_occurring_tree_is_listed<N>(trees: Seq<TreeView<N>>, tree: TreeView<N>)
    requires
        occurs(trees, tree),
    ensures
        forest_nodes(trees).contains(tree.node),
    decreases trees,
{
    let i = choose|i: int|
        0 <= i < trees.len() && (#[trigger] trees[i] == tree || occurs(trees[i].children, tree));
    let rest = trees.drop_last();
    let last = trees.last();
    assert(trees =~= rest.push(last));
    lemma_nodes_of_push(rest, last);
    let nodes = forest_nodes(trees);
    if i < trees.len() - 1 {
        lemma_occurring_tree_is_listed(rest, tree);
        let k = choose|k: int| 0 <= k < forest_nodes(rest).len() && forest_nodes(rest)[k] == tree.node;
        assert(nodes[k] == tree.node);
    } else if last == tree {
        assert(nodes[forest_nodes(rest).len() as int] == tree.node);
    } else {
        lemma_occurring_tree_is_listed(last.children, tree);
        let k = choose|k: int|
            0 <= k < forest_nodes(last.children).len() && forest_nodes(last.children)[k]
                == tree.node;
        assert(nodes[forest_nodes(rest).len() + 1 + k] == tree.node);
    }
}

/// A record of the children of one of the trees is a record of the trees.
pub proof fn lemma_listed_below<N>(trees: Seq<TreeView<N>>, i: int, node: N)
    requires
        0 <= i < trees.len(),
        forest_nodes(trees[i].children).contains(node),
    ensures
        forest_nodes(trees).contains(node),
    decreases trees.len(),
{
    let rest = trees.drop_last();
    let last = trees.last();
    assert(trees =~= rest.push(last));
    lemma_nodes_of_push(rest, last);
    let nodes = forest_nodes(trees);
    if i < trees.len() - 1 {
        lemma_listed_below(rest, i, node);
        let k = choose|k: int| 0 <= k < forest_nodes(rest).len() && forest_nodes(rest)[k] == node;
        assert(nodes[k] == node);
    } else {
        let k = choose|k: int|
            0 <= k < forest_nodes(last.children).len() && forest_nodes(last.children)[k] == node;
        assert(nodes[forest_nodes(rest).len() + 1 + k] == node);
    }
}

impl<N: Node> Forest<N> {
    /// The forest without trees.
    pub fn empty() -> (forest: Self)
        ensures
            forest@ == Seq::<TreeView<N>>::empty(),
    {
        let forest = Forest(Vec::new());
        forest
    }

    /// The records of the forest in depth-first order, a parent before its
    /// children and siblings in their order.
    pub fn iter(&self) -> (nodes: Vec<&N>)
        ensures
            nodes@.unref() == forest_nodes(self@),
    {
        let mut nodes: Vec<&N> = Vec::new();
        self.collect_nodes(&mut nodes);
        nodes
    }

    /// Appends the records of these trees to `nodes`, in depth-first order.
    fn collect_nodes<'a>(&'a self, nodes: &mut Vec<&'a N>)
        ensures
            final(nodes)@.unref() == old(nodes)@.unref() + forest_nodes(self@),
        decreases self,
    {
        let mut i: usize = 0;
        while i < self.0.len()
            invariant
                i <= self@.len(),
                self@.len() == self.0@.len(),
                nodes@.unref() == old(nodes)@.unref() + forest_nodes(self@.take(i as int)),
            decreases self@.len() - i,
        {
            let ghost before = nodes@;
            let tree = &self.0[i];
            nodes.push(&tree.node);
            tree.children.collect_nodes(nodes);
            proof {
                let next = self@.take(i + 1);
                assert(next.drop_last() =~= self@.take(i as int));
                assert(nodes@.unref() =~= before.unref() + tree_nodes(self@[i as int]));
            }
            i = i + 1;
        }
        assert(self@.take(i as int) =~= self@);
    }
}

} // verus!
