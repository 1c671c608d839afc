//! The identifiers of a forest under sorting and filtering: sorting keeps
//! them all, filtering leaves some out, and neither brings one in twice.

use crate::tree::assembly::forest_ids;
use crate::tree::filter::{filtered, filtered_tree, tree_kept};
use crate::tree::order::{by_root, inserted, sorted, sorted_below, sorted_tree, stable_sorted};
use crate::tree::{forest_nodes, lemma_occurring_tree_is_listed, tree_nodes, Node, TreeView};
use vstd::multiset::group_multiset_axioms;
use vstd::prelude::*;
use vstd::seq_lib::lemma_multiset_commutative;

verus! {

/// The identifiers of a tree, in depth-first order.
pub open spec fn tree_ids<N: Node>(tree: TreeView<N>) -> Seq<u64> {
    seq![tree.node.spec_id()] + forest_ids(tree.children)
}

/// The identifiers of a list of trees are those of all but the last, and
/// then those of the last.
pub proof fn lemma_ids_of_last<N: Node>(trees: Seq<TreeView<N>>)
    requires
        trees.len() > 0,
    ensures
        forest_ids(trees) == forest_ids(trees.drop_last()) + tree_ids(trees.last()),
{
    assert(forest_nodes(trees) == forest_nodes(trees.drop_last()) + tree_nodes(trees.last()));
}

/// A sequence without duplicates has none in any sequence that holds no
/// element more often.
pub proof fn lemma_fewer_are_unique<T>(all: Seq<T>, some: Seq<T>)
    requires
        all.no_duplicates(),
        some.to_multiset().subset_of(all.to_multiset()),
    ensures
        some.no_duplicates(),
{
    broadcast use group_multiset_axioms;

    all.lemma_multiset_has_no_duplicates();
    some.lemma_multiset_has_no_duplicates_conv();
}

/// Filtering brings in no identifier, and none more often than it was there.
pub proof fn lemma_filtered_ids_are_fewer<N: Node>(
    trees: Seq<TreeView<N>>,
    pred: spec_fn(N) -> bool,
    parent_included: bool,
)
    ensures
        forest_ids(filtered(trees, pred, parent_included)).to_multiset().subset_of(
            forest_ids(trees).to_multiset(),
        ),
    decreases trees,
{
    broadcast use group_multiset_axioms;

    let kept = filtered(trees, pred, parent_included);
    if trees.len() > 0 {
        let rest = trees.drop_last();
        let last = trees.last();
        lemma_ids_of_last(trees);
        lemma_filtered_ids_are_fewer(rest, pred, parent_included);
        lemma_multiset_commutative(forest_ids(rest), tree_ids(last));
        if tree_kept(last, pred, parent_included) {
            let below = parent_included || pred(last.node);
            let stays = filtered_tree(last, pred, parent_included);
            lemma_filtered_ids_are_fewer(last.children, pred, below);
            assert(kept.drop_last() =~= filtered(rest, pred, parent_included));
            lemma_ids_of_last(kept);
            lemma_multiset_commutative(forest_ids(kept.drop_last()), tree_ids(stays));
            lemma_multiset_commutative(seq![last.node.spec_id()], forest_ids(last.children));
            lemma_multiset_commutative(seq![last.node.spec_id()], forest_ids(stays.children));
        }
    }
}

/// A filtered forest holds no identifier twice where the forest held none
/// twice.
pub proof fn lemma_filtered_ids_stay_unique<N: Node>(
    trees: Seq<TreeView<N>>,
    pred: spec_fn(N) -> bool,
    parent_included: bool,
)
    requires
        forest_ids(trees).no_duplicates(),
    ensures
        forest_ids(filtered(trees, pred, parent_included)).no_duplicates(),
{
    lemma_filtered_ids_are_fewer(trees, pred, parent_included);
    lemma_fewer_are_unique(forest_ids(trees), forest_ids(filtered(trees, pred, parent_included)));
}

/// Putting a tree into a list of trees adds its identifiers to theirs.
pub proof fn lemma_inserted_ids<N: Node>(
    trees: Seq<TreeView<N>>,
    tree: TreeView<N>,
    after: spec_fn(TreeView<N>, TreeView<N>) -> bool,
)
    ensures
        forest_ids(inserted(trees, tree, after)).to_multiset() == forest_ids(
            trees,
        ).to_multiset().add(tree_ids(tree).to_multiset()),
    decreases trees.len(),
{
    broadcast use group_multiset_axioms;

    let out = inserted(trees, tree, after);
    if trees.len() == 0 || !after(trees.last(), tree) {
        assert(out.drop_last() =~= trees);
        lemma_ids_of_last(out);
        lemma_multiset_commutative(forest_ids(trees), tree_ids(tree));
    } else {
        let rest = trees.drop_last();
        let last = trees.last();
        lemma_inserted_ids(rest, tree, after);
        assert(out.drop_last() =~= inserted(rest, tree, after));
        lemma_ids_of_last(out);
        lemma_ids_of_last(trees);
        lemma_multiset_commutative(forest_ids(out.drop_last()), tree_ids(last));
        lemma_multiset_commutative(forest_ids(rest), tree_ids(last));
    }
}

/// Sorting a list of trees by their roots keeps their identifiers.
pub proof fn lemma_stable_sorted_ids<N: Node>(
    trees: Seq<TreeView<N>>,
    after: spec_fn(TreeView<N>, TreeView<N>) -> bool,
)
    ensures
        forest_ids(stable_sorted(trees, after)).to_multiset() == forest_ids(trees).to_multiset(),
    decreases trees.len(),
{
    broadcast use group_multiset_axioms;

    if trees.len() > 0 {
        let rest = trees.drop_last();
        lemma_stable_sorted_ids(rest, after);
        lemma_inserted_ids(stable_sorted(rest, after), trees.last(), after);
        lemma_ids_of_last(trees);
        lemma_multiset_commutative(forest_ids(rest), tree_ids(trees.last()));
    }
}

/// Sorting the children of the first `count` trees keeps the identifiers of
/// those trees.
proof fn lemma_sorted_below_ids<N: Node>(
    trees: Seq<TreeView<N>>,
    after: spec_fn(N, N) -> bool,
    count: nat,
)
    requires
        count <= trees.len(),
    ensures
        forest_ids(sorted_below(trees, after).take(count as int)).to_multiset() == forest_ids(
            trees.take(count as int),
        ).to_multiset(),
    decreases trees, count,
{
    broadcast use group_multiset_axioms;

    let below = sorted_below(trees, after);
    if count > 0 {
        let tree = trees[count - 1];
        let now = trees.take(count as int);
        let now_below = below.take(count as int);
        lemma_sorted_below_ids(trees, after, (count - 1) as nat);
        lemma_sorted_ids_are_the_same(tree.children, after);
        assert(now.drop_last() =~= trees.take(count - 1));
        assert(now_below.drop_last() =~= below.take(count - 1));
        lemma_ids_of_last(now);
        lemma_ids_of_last(now_below);
        lemma_multiset_commutative(forest_ids(now.drop_last()), tree_ids(tree));
        lemma_multiset_commutative(
            forest_ids(now_below.drop_last()),
            tree_ids(sorted_tree(tree, after)),
        );
        lemma_multiset_commutative(seq![tree.node.spec_id()], forest_ids(tree.children));
        lemma_multiset_commutative(
            seq![tree.node.spec_id()],
            forest_ids(sorted(tree.children, after)),
        );
    }
}

/// Sorting a forest keeps its identifiers, each as often as it was there.
pub proof fn lemma_sorted_ids_are_the_same<N: Node>(
    trees: Seq<TreeView<N>>,
    after: spec_fn(N, N) -> bool,
)
    ensures
        forest_ids(sorted(trees, after)).to_multiset() == forest_ids(trees).to_multiset(),
    decreases trees, trees.len() + 1,
{
    let below = sorted_below(trees, after);
    lemma_sorted_below_ids(trees, after, trees.len());
    assert(below.take(trees.len() as int) =~= below);
    assert(trees.take(trees.len() as int) =~= trees);
    lemma_stable_sorted_ids(below, by_root(after));
}

/// A sorted forest holds no identifier twice where the forest held none
/// twice.
pub proof fn lemma_sorted_ids_stay_unique<N: Node>(
    trees: Seq<TreeView<N>>,
    after: spec_fn(N, N) -> bool,
)
    requires
        forest_ids(trees).no_duplicates(),
    ensures
        forest_ids(sorted(trees, after)).no_duplicates(),
{
    broadcast use group_multiset_axioms;

    lemma_sorted_ids_are_the_same(trees, after);
    lemma_fewer_are_unique(forest_ids(trees), forest_ids(sorted(trees, after)));
}

/// In a forest that holds no identifier twice, siblings have different
/// identifiers, and no identifier is twice among the children of a record.
pub proof fn lemma_siblings_differ<N: Node>(trees: Seq<TreeView<N>>)
    requires
        forest_ids(trees).no_duplicates(),
    ensures
        forall|i: int, j: int|
            0 <= i < j < trees.len() ==> (#[trigger] trees[i]).node.spec_id()
                != (#[trigger] trees[j]).node.spec_id(),
        forall|i: int|
            0 <= i < trees.len() ==> forest_ids((#[trigger] trees[i]).children).no_duplicates(),
    decreases trees.len(),
{
    if trees.len() > 0 {
        let rest = trees.drop_last();
        let last = trees.last();
        let ids = forest_ids(trees);
        let before = forest_ids(rest);
        let below = forest_ids(last.children);
        lemma_ids_of_last(trees);
        assert(before.no_duplicates()) by {
            assert forall|a: int, b: int|
                0 <= a < before.len() && 0 <= b < before.len() && a != b implies before[a]
                != before[b] by {
                assert(ids[a] == before[a] && ids[b] == before[b]);
            }
        }
        assert(below.no_duplicates()) by {
            assert forall|a: int, b: int|
                0 <= a < below.len() && 0 <= b < below.len() && a != b implies below[a]
                != below[b] by {
                assert(ids[before.len() + 1 + a] == below[a]);
                assert(ids[before.len() + 1 + b] == below[b]);
            }
        }
        lemma_siblings_differ(rest);
        assert forall|i: int, j: int| 0 <= i < j < trees.len() implies (#[trigger] trees[i]).node.spec_id()
            != (#[trigger] trees[j]).node.spec_id() by {
            if j < trees.len() - 1 {
                assert(rest[i] == trees[i] && rest[j] == trees[j]);
            } else {
                lemma_occurring_tree_is_listed(rest, rest[i]);
                let nodes = forest_nodes(rest);
                let k = choose|k: int| 0 <= k < nodes.len() && nodes[k] == rest[i].node;
                assert(ids[k] == before[k]);
                assert(ids[before.len() as int] == last.node.spec_id());
            }
        }
        assert forall|i: int| 0 <= i < trees.len() implies forest_ids(
            (#[trigger] trees[i]).children,
        ).no_duplicates() by {
            if i < trees.len() - 1 {
                assert(rest[i] == trees[i]);
            }
        }
    }
}

/// Every identifier of a filtered forest is one of the forest.
pub proof fn lemma_filtered_ids_are_ids<N: Node>(
    trees: Seq<TreeView<N>>,
    pred: spec_fn(N) -> bool,
    parent_included: bool,
)
    ensures
        forall|id: u64| #[trigger]
            forest_ids(filtered(trees, pred, parent_included)).contains(id) ==> forest_ids(
                trees,
            ).contains(id),
{
    broadcast use group_multiset_axioms;

    lemma_filtered_ids_are_fewer(trees, pred, parent_included);
    let kept = forest_ids(filtered(trees, pred, parent_included));
    kept.to_multiset_ensures();
    forest_ids(trees).to_multiset_ensures();
    assert forall|id: u64| #[trigger] kept.contains(id) implies forest_ids(trees).contains(id) by {
        assert(kept.to_multiset().count(id) <= forest_ids(trees).to_multiset().count(id));
    }
}

/// A sorted forest has the identifiers of the forest, and no other.
pub proof fn lemma_sorted_ids_are_ids<N: Node>(
    trees: Seq<TreeView<N>>,
    after: spec_fn(N, N) -> bool,
)
    ensures
        forall|id: u64| #[trigger]
            forest_ids(sorted(trees, after)).contains(id) <==> forest_ids(trees).contains(id),
{
    broadcast use group_multiset_axioms;

    lemma_sorted_ids_are_the_same(trees, after);
    let sorted_ids = forest_ids(sorted(trees, after));
    let ids = forest_ids(trees);
    sorted_ids.to_multiset_ensures();
    ids.to_multiset_ensures();
    assert forall|id: u64| #[trigger] sorted_ids.contains(id) <==> ids.contains(id) by {
        assert(sorted_ids.to_multiset().count(id) == ids.to_multiset().count(id));
    }
}

} // verus!
