//! The filter of a forest: a record that matches stays with its descendants
//! and its ancestors.

use crate::tree::lines::forest_lines;
use crate::tree::order::{by_root, ordered_forest};
use crate::tree::{
    forest_nodes, lemma_listed_below, lemma_nodes_of_push, lemma_occurring_tree_is_listed, occurs,
    Forest, Node, Tree, TreeView,
};
use vstd::prelude::*;

verus! {

/// Whether the record of the tree or one of its descendants satisfies `pred`.
pub open spec fn tree_matches<N>(tree: TreeView<N>, pred: spec_fn(N) -> bool) -> bool
    decreases tree,
{
    pred(tree.node) || forest_matches(tree.children, pred)
}

/// Whether some record of the trees satisfies `pred`.
pub open spec fn forest_matches<N>(trees: Seq<TreeView<N>>, pred: spec_fn(N) -> bool) -> bool
    decreases trees,
{
    exists|i: int| 0 <= i < trees.len() && tree_matches(#[trigger] trees[i], pred)
}

/// Whether a tree stays under the filter: it does where its parent was
/// included for a match of its own or of an ancestor, and where the tree
/// itself holds a match.
pub open spec fn tree_kept<N>(
    tree: TreeView<N>,
    pred: spec_fn(N) -> bool,
    parent_included: bool,
) -> bool {
    parent_included || tree_matches(tree, pred)
}

/// A tree that stays, with its children filtered in turn. They count as
/// children of an included parent where the tree's record matches or the
/// tree's own parent was so included, and not where the tree stays only to
/// connect a match further down.
pub open spec fn filtered_tree<N>(
    tree: TreeView<N>,
    pred: spec_fn(N) -> bool,
    parent_included: bool,
) -> TreeView<N>
    decreases tree,
{
    TreeView {
        node: tree.node,
        children: filtered(tree.children, pred, parent_included || pred(tree.node)),
    }
}

/// The trees that stay under the filter, in their order, each filtered.
pub open spec fn filtered<N>(
    trees: Seq<TreeView<N>>,
    pred: spec_fn(N) -> bool,
    parent_included: bool,
) -> Seq<TreeView<N>>
    decreases trees,
{
    if trees.len() == 0 {
        Seq::empty()
    } else {
        let rest = filtered(trees.drop_last(), pred, parent_included);
        if tree_kept(trees.last(), pred, parent_included) {
            rest.push(filtered_tree(trees.last(), pred, parent_included))
        } else {
            rest
        }
    }
}

/// The filter can be asked about every record of the tree.
pub open spec fn asks_tree<N, F: Fn(&N) -> bool>(filter: &F, tree: TreeView<N>) -> bool
    decreases tree,
{
    &&& call_requires(*filter, (&tree.node,))
    &&& asks(filter, tree.children)
}

/// The filter can be asked about every record of the trees.
pub open spec fn asks<N, F: Fn(&N) -> bool>(filter: &F, trees: Seq<TreeView<N>>) -> bool
    decreases trees,
{
    forall|i: int| 0 <= i < trees.len() ==> asks_tree(filter, #[trigger] trees[i])
}

/// Whatever the filter answers about a record of the tree is what `pred`
/// says of that record.
pub open spec fn answers_tree<N, F: Fn(&N) -> bool>(
    filter: &F,
    pred: spec_fn(N) -> bool,
    tree: TreeView<N>,
) -> bool
    decreases tree,
{
    &&& forall|found: bool| #[trigger]
        call_ensures(*filter, (&tree.node,), found) ==> found == pred(tree.node)
    &&& answers(filter, pred, tree.children)
}

/// The filter computes `pred` on the records of the trees: whatever it
/// answers about one of them is what `pred` says of it.
pub open spec fn answers<N, F: Fn(&N) -> bool>(
    filter: &F,
    pred: spec_fn(N) -> bool,
    trees: Seq<TreeView<N>>,
) -> bool
    decreases trees,
{
    forall|i: int| 0 <= i < trees.len() ==> answers_tree(filter, pred, #[trigger] trees[i])
}

/// A filter that can be asked about every record can be asked about those of
/// the trees.
pub proof fn lemma_asks_everywhere<N, F: Fn(&N) -> bool>(filter: &F, trees: Seq<TreeView<N>>)
    requires
        forall|node: N| #[trigger] call_requires(*filter, (&node,)),
    ensures
        asks(filter, trees),
    decreases trees,
{
    assert forall|i: int| 0 <= i < trees.len() implies asks_tree(filter, #[trigger] trees[i]) by {
        lemma_asks_everywhere(filter, trees[i].children);
    }
}

/// A filter that computes `pred` on every record computes it on those of the
/// trees.
pub proof fn lemma_answers_everywhere<N, F: Fn(&N) -> bool>(
    filter: &F,
    pred: spec_fn(N) -> bool,
    trees: Seq<TreeView<N>>,
)
    requires
        forall|node: N, found: bool| #[trigger]
            call_ensures(*filter, (&node,), found) ==> found == pred(node),
    ensures
        answers(filter, pred, trees),
    decreases trees,
{
    assert forall|i: int| 0 <= i < trees.len() implies answers_tree(
        filter,
        pred,
        #[trigger] trees[i],
    ) by {
        lemma_answers_everywhere(filter, pred, trees[i].children);
    }
}

impl<N: Node> Forest<N> {
    /// Keeps the trees that hold a record for which `filter` answers `true`:
    /// such a record stays with all its descendants and with its ancestors
    /// up to the root. For every predicate that `filter` computes on the
    /// records of the forest, the forest is filtered by it.
    pub fn filter<F>(&mut self, filter: F) where F: Fn(&N) -> bool
        requires
            asks(&filter, old(self)@),
        ensures
            forall|pred: spec_fn(N) -> bool| #[trigger]
                answers(&filter, pred, old(self)@) ==> final(self)@ == filtered(
                    old(self)@,
                    pred,
                    false,
                ),
    {
        self.filter_helper(&filter, false);
    }

    /// Filters these sibling trees, whose parent was included for a match of
    /// its own or of an ancestor where `parent_included` holds, and tells
    /// whether any of them stays.
    pub fn filter_helper<F>(&mut self, filter: &F, parent_included: bool) -> (any_child_included:
        bool) where F: Fn(&N) -> bool
        requires
            asks(filter, old(self)@),
        ensures
            forall|pred: spec_fn(N) -> bool| #[trigger]
                answers(filter, pred, old(self)@) ==> final(self)@ == filtered(
                    old(self)@,
                    pred,
                    parent_included,
                ),
            any_child_included == (final(self)@.len() > 0),
        decreases *old(self),
    {
        let ghost all = old(self)@;
        let mut any_child_included = false;
        let mut trees: Vec<Tree<N>> = Vec::new();
        std::mem::swap(&mut self.0, &mut trees);
        for tree in it: trees.into_iter()
            invariant
                it.seq() == old(self).0@,
                all == old(self)@,
                asks(filter, all),
                forall|pred: spec_fn(N) -> bool| #[trigger]
                    answers(filter, pred, all) ==> self@ == filtered(
                        all.take(it.index() as int),
                        pred,
                        parent_included,
                    ),
                any_child_included == (self@.len() > 0),
        {
            let ghost i = it.index() as int;
            let mut tree = tree;
            let ghost given = tree@;
            proof {
                assert(given == all[i]);
                assert(all.take(i + 1).drop_last() =~= all.take(i));
            }
            let ghost kids = tree.children@;
            let found = parent_included || filter(&tree.node);
            let kept = if found {
                tree.children.filter_helper(filter, true);
                true
            } else {
                tree.children.filter_helper(filter, false)
            };
            let ghost after = tree@;
            if kept {
                self.0.push(tree);
                any_child_included = true;
            }
            proof {
                assert forall|pred: spec_fn(N) -> bool| #[trigger]
                    answers(filter, pred, all) implies self@ == filtered(
                    all.take(i + 1),
                    pred,
                    parent_included,
                ) by {
                    assert(answers(filter, pred, kids));
                    lemma_filtered_is_empty_without_match(given.children, pred);
                    if kept {
                        assert(after == filtered_tree(given, pred, parent_included));
                    }
                }
            }
        }
        assert(all.take(all.len() as int) =~= all);
        any_child_included
    }
}

/// Without an included parent, something stays of a list of trees exactly
/// where one of their records matches.
pub proof fn lemma_filtered_is_empty_without_match<N>(
    trees: Seq<TreeView<N>>,
    pred: spec_fn(N) -> bool,
)
    ensures
        filtered(trees, pred, false).len() > 0 <==> forest_matches(trees, pred),
    decreases trees.len(),
{
    if trees.len() > 0 {
        let rest = trees.drop_last();
        lemma_filtered_is_empty_without_match(rest, pred);
        if forest_matches(trees, pred) {
            let i = choose|i: int| 0 <= i < trees.len() && tree_matches(#[trigger] trees[i], pred);
            if i < rest.len() {
                assert(rest[i] == trees[i]);
            }
        }
    }
}

/// The trees hold a match exactly where one of their records satisfies the
/// predicate.
pub proof fn lemma_match_is_a_record<N>(trees: Seq<TreeView<N>>, pred: spec_fn(N) -> bool)
    ensures
        forest_matches(trees, pred) <==> exists|k: int|
            0 <= k < forest_nodes(trees).len() && pred(#[trigger] forest_nodes(trees)[k]),
    decreases trees,
{
    if trees.len() > 0 {
        let rest = trees.drop_last();
        let last = trees.last();
        assert(trees =~= rest.push(last));
        lemma_nodes_of_push(rest, last);
        lemma_match_is_a_record(rest, pred);
        lemma_match_is_a_record(last.children, pred);
        let nodes = forest_nodes(trees);
        let before = forest_nodes(rest).len() as int;
        if forest_matches(trees, pred) {
            let i = choose|i: int| 0 <= i < trees.len() && tree_matches(#[trigger] trees[i], pred);
            if i < rest.len() {
                let k = choose|k: int|
                    0 <= k < forest_nodes(rest).len() && pred(#[trigger] forest_nodes(rest)[k]);
                assert(nodes[k] == forest_nodes(rest)[k]);
            } else if pred(last.node) {
                assert(nodes[before] == last.node);
            } else {
                let k = choose|k: int|
                    0 <= k < forest_nodes(last.children).len() && pred(
                        #[trigger] forest_nodes(last.children)[k],
                    );
                assert(nodes[before + 1 + k] == forest_nodes(last.children)[k]);
            }
        }
        if exists|k: int| 0 <= k < nodes.len() && pred(#[trigger] nodes[k]) {
            let k = choose|k: int| 0 <= k < nodes.len() && pred(#[trigger] nodes[k]);
        }
    }
}

/// Where no record satisfies the predicate, nothing is left of the forest,
/// and there is no line to show.
pub proof fn lemma_filter_without_match_leaves_nothing<N>(
    trees: Seq<TreeView<N>>,
    pred: spec_fn(N) -> bool,
)
    requires
        forall|k: int| 0 <= k < forest_nodes(trees).len() ==> !pred(#[trigger] forest_nodes(trees)[k]),
    ensures
        filtered(trees, pred, false) == Seq::<TreeView<N>>::empty(),
        forest_lines(filtered(trees, pred, false), true, Seq::empty()) == Seq::<
            (Seq<char>, N),
        >::empty(),
{
    lemma_match_is_a_record(trees, pred);
    lemma_filtered_is_empty_without_match(trees, pred);
}

/// Under an included parent the filter changes nothing.
pub proof fn lemma_included_parent_keeps_all<N>(trees: Seq<TreeView<N>>, pred: spec_fn(N) -> bool)
    ensures
        filtered(trees, pred, true) == trees,
    decreases trees,
{
    if trees.len() > 0 {
        lemma_included_parent_keeps_all(trees.drop_last(), pred);
        lemma_included_parent_keeps_all(trees.last().children, pred);
        assert(filtered_tree(trees.last(), pred, true) == trees.last());
    }
}

/// A filter that every record of the forest satisfies changes nothing: the
/// forest, and so its lines, are those of the forest that was not filtered.
pub proof fn lemma_filter_by_true_changes_nothing<N>(
    trees: Seq<TreeView<N>>,
    pred: spec_fn(N) -> bool,
    parent_included: bool,
)
    requires
        forall|k: int| 0 <= k < forest_nodes(trees).len() ==> pred(#[trigger] forest_nodes(trees)[k]),
    ensures
        filtered(trees, pred, parent_included) == trees,
        forest_lines(filtered(trees, pred, parent_included), true, Seq::empty()) == forest_lines(
            trees,
            true,
            Seq::empty(),
        ),
    decreases trees.len(),
{
    if trees.len() > 0 {
        let rest = trees.drop_last();
        let last = trees.last();
        assert(trees =~= rest.push(last));
        lemma_nodes_of_push(rest, last);
        let nodes = forest_nodes(trees);
        assert forall|k: int| 0 <= k < forest_nodes(rest).len() implies pred(
            #[trigger] forest_nodes(rest)[k],
        ) by {
            assert(nodes[k] == forest_nodes(rest)[k]);
        }
        lemma_filter_by_true_changes_nothing(rest, pred, parent_included);
        lemma_included_parent_keeps_all(last.children, pred);
        assert(nodes[forest_nodes(rest).len() as int] == last.node);
        assert(filtered_tree(last, pred, parent_included) == last);
    }
}

/// Two lists of siblings, one after the other, are filtered each for itself.
pub proof fn lemma_filter_of_siblings<N>(
    first: Seq<TreeView<N>>,
    second: Seq<TreeView<N>>,
    pred: spec_fn(N) -> bool,
    parent_included: bool,
)
    ensures
        filtered(first + second, pred, parent_included) == filtered(first, pred, parent_included)
            + filtered(second, pred, parent_included),
    decreases second.len(),
{
    if second.len() > 0 {
        let all = first + second;
        assert(all.drop_last() =~= first + second.drop_last());
        lemma_filter_of_siblings(first, second.drop_last(), pred, parent_included);
    }
}

/// A sibling that the filter hides leaves no trace in the lines. Which line
/// closes a branch therefore depends on the siblings that show, not on the
/// hidden ones: the lines are those of the forest without the hidden tree.
pub proof fn lemma_hidden_sibling_leaves_no_trace<N>(
    before: Seq<TreeView<N>>,
    hidden: TreeView<N>,
    after: Seq<TreeView<N>>,
    pred: spec_fn(N) -> bool,
    parent_included: bool,
    is_root: bool,
    indent: Seq<char>,
)
    requires
        !tree_kept(hidden, pred, parent_included),
    ensures
        filtered(before + seq![hidden] + after, pred, parent_included) == filtered(
            before + after,
            pred,
            parent_included,
        ),
        forest_lines(
            filtered(before + seq![hidden] + after, pred, parent_included),
            is_root,
            indent,
        ) == forest_lines(filtered(before + after, pred, parent_included), is_root, indent),
{
    lemma_filter_of_siblings(before + seq![hidden], after, pred, parent_included);
    lemma_filter_of_siblings(before, seq![hidden], pred, parent_included);
    lemma_filter_of_siblings(before, after, pred, parent_included);
    let one = seq![hidden];
    assert(filtered(one.drop_last(), pred, parent_included) =~= Seq::<TreeView<N>>::empty());
}

/// A tree that stays is one of the filtered trees.
pub proof fn lemma_kept_tree_stays<N>(
    trees: Seq<TreeView<N>>,
    pred: spec_fn(N) -> bool,
    parent_included: bool,
    i: int,
)
    requires
        0 <= i < trees.len(),
        tree_kept(trees[i], pred, parent_included),
    ensures
        exists|k: int|
            0 <= k < filtered(trees, pred, parent_included).len() && #[trigger] filtered(
                trees,
                pred,
                parent_included,
            )[k] == filtered_tree(trees[i], pred, parent_included),
    decreases trees.len(),
{
    let kept = filtered(trees, pred, parent_included);
    let rest = filtered(trees.drop_last(), pred, parent_included);
    if i == trees.len() - 1 {
        assert(kept[rest.len() as int] == filtered_tree(trees[i], pred, parent_included));
    } else {
        lemma_kept_tree_stays(trees.drop_last(), pred, parent_included, i);
        let k = choose|k: int|
            0 <= k < rest.len() && #[trigger] rest[k] == filtered_tree(
                trees[i],
                pred,
                parent_included,
            );
        assert(kept[k] == rest[k]);
    }
}

/// A tree below which a match occurs holds a match.
pub proof fn lemma_occurring_match<N>(
    trees: Seq<TreeView<N>>,
    tree: TreeView<N>,
    pred: spec_fn(N) -> bool,
)
    requires
        occurs(trees, tree),
        tree_matches(tree, pred),
    ensures
        forest_matches(trees, pred),
    decreases trees,
{
    let i = choose|i: int|
        0 <= i < trees.len() && (#[trigger] trees[i] == tree || occurs(trees[i].children, tree));
    if trees[i] != tree {
        lemma_occurring_match(trees[i].children, tree, pred);
    }
}

/// A record that satisfies the predicate stays with all its descendants: its
/// tree occurs in the filtered forest as it was.
pub proof fn lemma_match_keeps_descendants<N>(
    trees: Seq<TreeView<N>>,
    tree: TreeView<N>,
    pred: spec_fn(N) -> bool,
    parent_included: bool,
)
    requires
        occurs(trees, tree),
        pred(tree.node),
    ensures
        occurs(filtered(trees, pred, parent_included), tree),
    decreases trees,
{
    let i = choose|i: int|
        0 <= i < trees.len() && (#[trigger] trees[i] == tree || occurs(trees[i].children, tree));
    if trees[i] == tree {
        lemma_included_parent_keeps_all(tree.children, pred);
        lemma_kept_tree_stays(trees, pred, parent_included, i);
    } else {
        let below = parent_included || pred(trees[i].node);
        lemma_occurring_match(trees[i].children, tree, pred);
        lemma_match_keeps_descendants(trees[i].children, tree, pred, below);
        lemma_kept_tree_stays(trees, pred, parent_included, i);
    }
}

/// Every ancestor of a record that satisfies the predicate stays: the record
/// at the root of a tree that holds a match is one of the records of the
/// filtered forest.
pub proof fn lemma_match_keeps_ancestors<N>(
    trees: Seq<TreeView<N>>,
    ancestor: TreeView<N>,
    pred: spec_fn(N) -> bool,
    parent_included: bool,
)
    requires
        occurs(trees, ancestor),
        tree_matches(ancestor, pred),
    ensures
        forest_nodes(filtered(trees, pred, parent_included)).contains(ancestor.node),
    decreases trees,
{
    let kept = filtered(trees, pred, parent_included);
    let i = choose|i: int|
        0 <= i < trees.len() && (#[trigger] trees[i] == ancestor || occurs(
            trees[i].children,
            ancestor,
        ));
    if trees[i] != ancestor {
        lemma_occurring_match(trees[i].children, ancestor, pred);
    }
    lemma_kept_tree_stays(trees, pred, parent_included, i);
    let k = choose|k: int|
        0 <= k < kept.len() && #[trigger] kept[k] == filtered_tree(trees[i], pred, parent_included);
    if trees[i] == ancestor {
        lemma_occurring_tree_is_listed(kept, kept[k]);
    } else {
        let below = parent_included || pred(trees[i].node);
        lemma_match_keeps_ancestors(trees[i].children, ancestor, pred, below);
        lemma_listed_below(kept, k, ancestor.node);
    }
}

/// The trees that stay are trees of the list, filtered, in the order that
/// they have in the list.
pub proof fn lemma_filtered_keeps_order<N>(
    trees: Seq<TreeView<N>>,
    pred: spec_fn(N) -> bool,
    parent_included: bool,
)
    ensures
        exists|at: Seq<int>|
            {
                &&& at.len() == filtered(trees, pred, parent_included).len()
                &&& forall|k: int|
                    0 <= k < at.len() ==> 0 <= #[trigger] at[k] < trees.len() && filtered(
                        trees,
                        pred,
                        parent_included,
                    )[k] == filtered_tree(trees[at[k]], pred, parent_included)
                &&& forall|j: int, k: int| 0 <= j < k < at.len() ==> at[j] < at[k]
            },
    decreases trees.len(),
{
    let kept = filtered(trees, pred, parent_included);
    if trees.len() == 0 {
        let at = Seq::<int>::empty();
        assert(at.len() == kept.len());
    } else {
        let rest = trees.drop_last();
        let kept_rest = filtered(rest, pred, parent_included);
        lemma_filtered_keeps_order(rest, pred, parent_included);
        let at = choose|at: Seq<int>|
            {
                &&& at.len() == kept_rest.len()
                &&& forall|k: int|
                    0 <= k < at.len() ==> 0 <= #[trigger] at[k] < rest.len() && kept_rest[k]
                        == filtered_tree(rest[at[k]], pred, parent_included)
                &&& forall|j: int, k: int| 0 <= j < k < at.len() ==> at[j] < at[k]
            };
        if tree_kept(trees.last(), pred, parent_included) {
            let more = at.push(trees.len() - 1);
            assert(more.len() == kept.len());
        }
    }
}

/// A forest that is in order at every level is still in order when it is
/// filtered.
pub proof fn lemma_filtered_stays_ordered<N>(
    trees: Seq<TreeView<N>>,
    pred: spec_fn(N) -> bool,
    parent_included: bool,
    after: spec_fn(N, N) -> bool,
)
    requires
        ordered_forest(trees, after),
    ensures
        ordered_forest(filtered(trees, pred, parent_included), after),
    decreases trees,
{
    let kept = filtered(trees, pred, parent_included);
    lemma_filtered_keeps_order(trees, pred, parent_included);
    let at = choose|at: Seq<int>|
        {
            &&& at.len() == kept.len()
            &&& forall|k: int|
                0 <= k < at.len() ==> 0 <= #[trigger] at[k] < trees.len() && kept[k]
                    == filtered_tree(trees[at[k]], pred, parent_included)
            &&& forall|j: int, k: int| 0 <= j < k < at.len() ==> at[j] < at[k]
        };
    assert forall|j: int, k: int| 0 <= j < k < kept.len() implies !by_root(after)(
        #[trigger] kept[j],
        #[trigger] kept[k],
    ) by {
        assert(at[j] < at[k]);
    }
    assert forall|k: int| 0 <= k < kept.len() implies ordered_forest(
        (#[trigger] kept[k]).children,
        after,
    ) by {
        let tree = trees[at[k]];
        lemma_filtered_stays_ordered(
            tree.children,
            pred,
            parent_included || pred(tree.node),
            after,
        );
    }
}

} // verus!
