//! The order of siblings: every level of a forest sorted by a comparator.

use crate::tree::{lemma_take_whole, lemma_view_of_insert, Forest, Node, Tree, TreeView};
use std::cmp::Ordering;
use vstd::prelude::*;

verus! {

/// `sorted` with `x` put in: behind the last element that need not come after
/// `x`, and so in front of the elements at the end that all come after it.
pub open spec fn inserted<T>(sorted: Seq<T>, x: T, after: spec_fn(T, T) -> bool) -> Seq<T>
    decreases sorted.len(),
{
    if sorted.len() == 0 || !after(sorted.last(), x) {
        sorted.push(x)
    } else {
        inserted(sorted.drop_last(), x, after).push(sorted.last())
    }
}

/// The elements of `s`, put in one after the other: where `after` is a strict
/// weak order this is `s` in ascending order, and elements of which neither
/// comes after the other keep the order they had in `s`.
pub open spec fn stable_sorted<T>(s: Seq<T>, after: spec_fn(T, T) -> bool) -> Seq<T>
    decreases s.len(),
{
    if s.len() == 0 {
        s
    } else {
        inserted(stable_sorted(s.drop_last(), after), s.last(), after)
    }
}

/// The order of trees by the records at their roots.
pub open spec fn by_root<N>(after: spec_fn(N, N) -> bool) -> spec_fn(TreeView<N>, TreeView<N>) -> bool {
    |a: TreeView<N>, b: TreeView<N>| after(a.node, b.node)
}

/// The tree with the children of every record sorted.
pub open spec fn sorted_tree<N>(tree: TreeView<N>, after: spec_fn(N, N) -> bool) -> TreeView<N>
    decreases tree,
{
    TreeView { node: tree.node, children: sorted(tree.children, after) }
}

/// The trees with the children of every record sorted, not yet in order
/// themselves.
pub open spec fn sorted_below<N>(trees: Seq<TreeView<N>>, after: spec_fn(N, N) -> bool) -> Seq<
    TreeView<N>,
>
    decreases trees, 0nat,
{
    Seq::new(
        trees.len(),
        |i: int|
            if 0 <= i < trees.len() {
                sorted_tree(trees[i], after)
            } else {
                arbitrary()
            },
    )
}

/// The trees sorted by the records at their roots, with the children of every
/// record sorted in the same way.
pub open spec fn sorted<N>(trees: Seq<TreeView<N>>, after: spec_fn(N, N) -> bool) -> Seq<
    TreeView<N>,
>
    decreases trees, 1nat,
{
    stable_sorted(sorted_below(trees, after), by_root(after))
}

/// The comparator can be asked about any two siblings among the trees and
/// their descendants.
pub open spec fn asks_order<N, F: Fn(&N, &N) -> Ordering>(compare: &F, trees: Seq<TreeView<N>>) -> bool
    decreases trees,
{
    &&& forall|i: int, j: int|
        0 <= i < trees.len() && 0 <= j < trees.len() ==> call_requires(
            *compare,
            (&(#[trigger] trees[i]).node, &(#[trigger] trees[j]).node),
        )
    &&& forall|i: int|
        0 <= i < trees.len() ==> asks_order(compare, (#[trigger] trees[i]).children)
}

/// Whatever the comparator answers about `a` and `b`, it answers `Greater`
/// exactly where `a` comes after `b`.
pub open spec fn answers_pair<N, F: Fn(&N, &N) -> Ordering>(
    compare: &F,
    after: spec_fn(N, N) -> bool,
    a: N,
    b: N,
) -> bool {
    forall|order: Ordering| #[trigger]
        call_ensures(*compare, (&a, &b), order) ==> (order is Greater <==> after(a, b))
}

/// The comparator computes the order `after` on the siblings among the trees
/// and their descendants.
pub open spec fn answers_order<N, F: Fn(&N, &N) -> Ordering>(
    compare: &F,
    after: spec_fn(N, N) -> bool,
    trees: Seq<TreeView<N>>,
) -> bool
    decreases trees,
{
    &&& forall|i: int, j: int|
        0 <= i < trees.len() && 0 <= j < trees.len() ==> answers_pair(
            compare,
            after,
            (#[trigger] trees[i]).node,
            (#[trigger] trees[j]).node,
        )
    &&& forall|i: int|
        0 <= i < trees.len() ==> answers_order(compare, after, (#[trigger] trees[i]).children)
}

/// A comparator that can be asked about any two records can be asked about
/// the siblings among the trees.
pub proof fn lemma_asks_order_everywhere<N, F: Fn(&N, &N) -> Ordering>(
    compare: &F,
    trees: Seq<TreeView<N>>,
)
    requires
        forall|a: N, b: N| #[trigger] call_requires(*compare, (&a, &b)),
    ensures
        asks_order(compare, trees),
    decreases trees,
{
    assert forall|i: int| 0 <= i < trees.len() implies asks_order(
        compare,
        (#[trigger] trees[i]).children,
    ) by {
        lemma_asks_order_everywhere(compare, trees[i].children);
    }
}

/// A comparator that computes `after` on any two records computes it on the
/// siblings among the trees.
pub proof fn lemma_answers_order_everywhere<N, F: Fn(&N, &N) -> Ordering>(
    compare: &F,
    after: spec_fn(N, N) -> bool,
    trees: Seq<TreeView<N>>,
)
    requires
        forall|a: N, b: N| #[trigger] answers_pair(compare, after, a, b),
    ensures
        answers_order(compare, after, trees),
    decreases trees,
{
    assert forall|i: int| 0 <= i < trees.len() implies answers_order(
        compare,
        after,
        (#[trigger] trees[i]).children,
    ) by {
        lemma_answers_order_everywhere(compare, after, trees[i].children);
    }
}

impl<N: Node> Forest<N> {
    /// Sorts the roots, and the children of every record, by `compare`.
    /// Siblings of which neither comes after the other keep their order. For
    /// every order that `compare` computes on the siblings of the forest,
    /// the forest is sorted by it.
    pub fn sort_by<F>(&mut self, compare: &F) where F: Fn(&N, &N) -> Ordering
        requires
            asks_order(compare, old(self)@),
        ensures
            forall|after: spec_fn(N, N) -> bool| #[trigger]
                answers_order(compare, after, old(self)@) ==> final(self)@ == sorted(
                    old(self)@,
                    after,
                ),
        decreases *old(self),
    {
        let ghost all = old(self)@;
        let mut trees: Vec<Tree<N>> = Vec::new();
        std::mem::swap(&mut self.0, &mut trees);
        for tree in it: trees.into_iter()
            invariant
                it.seq() == old(self).0@,
                all == old(self)@,
                asks_order(compare, all),
                forall|after: spec_fn(N, N) -> bool| #[trigger]
                    answers_order(compare, after, all) ==> self@ == stable_sorted(
                        sorted_below(all, after).take(it.index()),
                        by_root(after),
                    ),
                self@.len() == it.index(),
                forall|k: int|
                    0 <= k < self@.len() ==> exists|m: int|
                        0 <= m < all.len() && (#[trigger] self@[k]).node == all[m].node,
        {
            let ghost i = it.index();
            let ghost before = *self;
            let mut tree = tree;
            let ghost given = tree@;
            assert(given == all[i]);
            let ghost kids = tree.children@;
            tree.children.sort_by(compare);
            assert forall|k: int| 0 <= k < self.0@.len() implies call_requires(
                *compare,
                (&(#[trigger] self.0@[k]).node, &tree.node),
            ) by {
                let m = choose|m: int| 0 <= m < all.len() && self@[k].node == all[m].node;
            }
            let mut j: usize = self.0.len();
            let mut placed = false;
            let ghost mut stop = Ordering::Equal;
            while j > 0 && !placed
                invariant
                    j <= self.0@.len(),
                    *self == before,
                    forall|k: int|
                        0 <= k < self.0@.len() ==> call_requires(
                            *compare,
                            (&(#[trigger] self.0@[k]).node, &tree.node),
                        ),
                    forall|k: int|
                        j <= k < self.0@.len() ==> call_ensures(
                            *compare,
                            (&(#[trigger] self.0@[k]).node, &tree.node),
                            Ordering::Greater,
                        ),
                    placed ==> j > 0 && !(stop is Greater) && call_ensures(
                        *compare,
                        (&self.0@[j - 1].node, &tree.node),
                        stop,
                    ),
                decreases
                        (if placed {
                            0int
                        } else {
                            j + 1
                        }),
            {
                let order = compare(&self.0[j - 1].node, &tree.node);
                match order {
                    Ordering::Greater => {
                        j = j - 1;
                    },
                    _ => {
                        placed = true;
                        proof {
                            stop = order;
                        }
                    },
                }
            }
            let ghost sorted_tree = tree@;
            self.0.insert(j, tree);
            proof {
                lemma_view_of_insert(before, *self, j, tree);
                assert forall|after: spec_fn(N, N) -> bool| #[trigger]
                    answers_order(compare, after, all) implies self@ == stable_sorted(
                    sorted_below(all, after).take(i + 1),
                    by_root(after),
                ) by {
                    let below = sorted_below(all, after);
                    assert(below.take(i + 1).drop_last() =~= below.take(i));
                    assert(answers_order(compare, after, kids));
                    lemma_inserted_at(before@, sorted_tree, by_root(after), j);
                }
            }
        }
        proof {
            assert forall|after: spec_fn(N, N) -> bool| #[trigger]
                answers_order(compare, after, all) implies self@ == sorted(all, after) by {
                lemma_take_whole(sorted_below(all, after));
            }
        }
    }
}

/// Sorting the same forest twice by the same comparator gives the same
/// forest: where the comparator computes an order, what either run leaves is
/// the forest sorted by that order.
pub proof fn lemma_sorting_is_repeatable<N, F: Fn(&N, &N) -> Ordering>(
    compare: &F,
    after: spec_fn(N, N) -> bool,
    trees: Seq<TreeView<N>>,
    first: Seq<TreeView<N>>,
    second: Seq<TreeView<N>>,
)
    requires
        answers_order(compare, after, trees),
        forall|order: spec_fn(N, N) -> bool| #[trigger]
            answers_order(compare, order, trees) ==> first == sorted(trees, order),
        forall|order: spec_fn(N, N) -> bool| #[trigger]
            answers_order(compare, order, trees) ==> second == sorted(trees, order),
    ensures
        first == second,
        first == sorted(trees, after),
{
}

/// Where `x` need not come after the element in front of position `at`, and
/// every element from `at` on comes after `x`, putting `x` in places it at
/// `at`.
pub proof fn lemma_inserted_at<T>(sorted: Seq<T>, x: T, after: spec_fn(T, T) -> bool, at: usize)
    requires
        at <= sorted.len(),
        at > 0 ==> !after(sorted[at - 1], x),
        forall|k: int| at <= k < sorted.len() ==> after(#[trigger] sorted[k], x),
    ensures
        inserted(sorted, x, after) == sorted.insert(at as int, x),
    decreases sorted.len(),
{
    if at < sorted.len() {
        let rest = sorted.drop_last();
        lemma_inserted_at(rest, x, after, at);
    }
}

/// Putting an element into a sequence adds it and keeps all the others.
pub proof fn lemma_inserted_is_permutation<T>(sorted: Seq<T>, x: T, after: spec_fn(T, T) -> bool)
    ensures
        inserted(sorted, x, after).to_multiset() == sorted.to_multiset().insert(x),
        inserted(sorted, x, after).len() == sorted.len() + 1,
    decreases sorted.len(),
{
    broadcast use vstd::seq_lib::group_to_multiset_ensures;

    if sorted.len() > 0 && after(sorted.last(), x) {
        let rest = sorted.drop_last();
        lemma_inserted_is_permutation(rest, x, after);
        assert(sorted =~= rest.push(sorted.last()));
    }
}

/// Sorting keeps every element, as often as it occurs.
pub proof fn lemma_stable_sorted_is_permutation<T>(s: Seq<T>, after: spec_fn(T, T) -> bool)
    ensures
        stable_sorted(s, after).to_multiset() == s.to_multiset(),
        stable_sorted(s, after).len() == s.len(),
    decreases s.len(),
{
    broadcast use vstd::seq_lib::group_to_multiset_ensures;

    if s.len() > 0 {
        lemma_stable_sorted_is_permutation(s.drop_last(), after);
        lemma_inserted_is_permutation(stable_sorted(s.drop_last(), after), s.last(), after);
        assert(s =~= s.drop_last().push(s.last()));
    }
}

/// Whether no element of the sequence comes after a later one.
pub open spec fn ordered<T>(s: Seq<T>, after: spec_fn(T, T) -> bool) -> bool {
    forall|i: int, j: int| 0 <= i < j < s.len() ==> !after(#[trigger] s[i], #[trigger] s[j])
}

/// Whether `after` is a strict weak order: nothing comes after what comes
/// after it, and what does not come after an element that does not come
/// after a third does not come after the third.
pub open spec fn is_strict_weak_order<T>(after: spec_fn(T, T) -> bool) -> bool {
    &&& forall|a: T, b: T| #[trigger] after(a, b) ==> !after(b, a)
    &&& forall|a: T, b: T, c: T|
        !(#[trigger] after(a, b)) && !(#[trigger] after(b, c)) ==> !after(a, c)
}

/// Putting an element into an ordered sequence leaves it ordered.
pub proof fn lemma_inserted_is_ordered<T>(sorted: Seq<T>, x: T, after: spec_fn(T, T) -> bool)
    requires
        is_strict_weak_order(after),
        ordered(sorted, after),
    ensures
        ordered(inserted(sorted, x, after), after),
        forall|k: int|
            0 <= k < inserted(sorted, x, after).len() ==> #[trigger] inserted(sorted, x, after)[k]
                == x || sorted.contains(inserted(sorted, x, after)[k]),
    decreases sorted.len(),
{
    if sorted.len() > 0 && after(sorted.last(), x) {
        let rest = sorted.drop_last();
        lemma_inserted_is_ordered(rest, x, after);
    }
}

/// By a strict weak order the sorted sequence is ordered, and it holds
/// elements of the sequence only.
pub proof fn lemma_stable_sorted_is_ordered<T>(s: Seq<T>, after: spec_fn(T, T) -> bool)
    requires
        is_strict_weak_order(after),
    ensures
        ordered(stable_sorted(s, after), after),
        forall|k: int|
            0 <= k < stable_sorted(s, after).len() ==> s.contains(
                #[trigger] stable_sorted(s, after)[k],
            ),
    decreases s.len(),
{
    if s.len() > 0 {
        let rest = s.drop_last();
        lemma_stable_sorted_is_ordered(rest, after);
        lemma_inserted_is_ordered(stable_sorted(rest, after), s.last(), after);
    }
}

/// Whether the trees are in order by the records at their roots, and the
/// children of every record are too.
pub open spec fn ordered_forest<N>(trees: Seq<TreeView<N>>, after: spec_fn(N, N) -> bool) -> bool
    decreases trees,
{
    &&& ordered(trees, by_root(after))
    &&& forall|i: int|
        0 <= i < trees.len() ==> ordered_forest((#[trigger] trees[i]).children, after)
}

/// By a strict weak order the sorted forest is in order at every level.
/// Sorting is a function of the forest and the order: the same forest gives
/// the same result whenever it is sorted.
pub proof fn lemma_sorted_forest_is_ordered<N>(trees: Seq<TreeView<N>>, after: spec_fn(N, N) -> bool)
    requires
        is_strict_weak_order(after),
    ensures
        ordered_forest(sorted(trees, after), after),
    decreases trees,
{
    let below = sorted_below(trees, after);
    let out = sorted(trees, after);
    lemma_stable_sorted_is_ordered(below, by_root(after));
    assert forall|i: int| 0 <= i < out.len() implies ordered_forest(
        (#[trigger] out[i]).children,
        after,
    ) by {
        let m = choose|m: int| 0 <= m < below.len() && below[m] == out[i];
        lemma_sorted_forest_is_ordered(trees[m].children, after);
    }
}

/// A sequence that is in order stays as it is when it is sorted.
pub proof fn lemma_ordered_sequence_stays<T>(s: Seq<T>, after: spec_fn(T, T) -> bool)
    requires
        ordered(s, after),
    ensures
        stable_sorted(s, after) == s,
    decreases s.len(),
{
    if s.len() > 0 {
        let rest = s.drop_last();
        lemma_ordered_sequence_stays(rest, after);
    }
}

/// A forest that is in order at every level stays as it is when it is
/// sorted.
pub proof fn lemma_ordered_forest_stays<N>(trees: Seq<TreeView<N>>, after: spec_fn(N, N) -> bool)
    requires
        ordered_forest(trees, after),
    ensures
        sorted(trees, after) == trees,
    decreases trees,
{
    assert forall|i: int| 0 <= i < trees.len() implies sorted_tree(#[trigger] trees[i], after)
        == trees[i] by {
        lemma_ordered_forest_stays(trees[i].children, after);
    }
    assert(sorted_below(trees, after) =~= trees);
    lemma_ordered_sequence_stays(trees, by_root(after));
}

/// By a strict weak order, sorting a sorted forest again changes nothing.
pub proof fn lemma_sorting_twice_changes_nothing<N>(
    trees: Seq<TreeView<N>>,
    after: spec_fn(N, N) -> bool,
)
    requires
        is_strict_weak_order(after),
    ensures
        sorted(sorted(trees, after), after) == sorted(trees, after),
{
    lemma_sorted_forest_is_ordered(trees, after);
    lemma_ordered_forest_stays(sorted(trees, after), after);
}

} // verus!
