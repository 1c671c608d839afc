//! Assembling a forest from flat records.

use crate::tree::rollup::{
    absorb_all, accumulated, accumulated_tree, lemma_absorb_all_keeps_identity,
};
use crate::tree::{
    forest_nodes, lemma_occurring_tree_is_listed, lemma_occurs_below, lemma_view_of_push, occurs,
    tree_nodes, Forest, Node, Tree, TreeView,
};
use std::collections::HashMap;
use std::collections::HashSet;
use vstd::prelude::*;
use vstd::std_specs::hash::group_hash_axioms;

verus! {

/// No two records have the same identifier.
pub open spec fn unique_ids<N: Node>(records: Seq<N>) -> bool {
    forall|i: int, j: int|
        0 <= i < j < records.len() ==> (#[trigger] records[i]).spec_id()
            != (#[trigger] records[j]).spec_id()
}

/// The identifiers of the records, in their order.
pub open spec fn ids_of<N: Node>(records: Seq<N>) -> Seq<u64> {
    records.map_values(|record: N| record.spec_id())
}

/// The records without a parent, in their order.
pub open spec fn roots_of<N: Node>(records: Seq<N>) -> Seq<N> {
    records.filter(|record: N| record.spec_parent() is None)
}

/// The records that name `id` as their parent, in their order.
pub open spec fn children_of<N: Node>(records: Seq<N>, id: u64) -> Seq<N> {
    records.filter(|record: N| record.spec_parent() == Some(id))
}

/// The identifiers of the records of the trees, in depth-first order.
pub open spec fn forest_ids<N: Node>(trees: Seq<TreeView<N>>) -> Seq<u64> {
    forest_nodes(trees).map_values(|node: N| node.spec_id())
}

/// The tree is that of `record`: its children are the trees of the records
/// that name `record` as their parent, in the order of `records`, and its own
/// record is `record` after it has taken up the records of those children.
pub open spec fn tree_built<N: Node>(tree: TreeView<N>, record: N, records: Seq<N>) -> bool
    decreases tree,
{
    &&& tree.node == absorb_all(record, tree.children)
    &&& built(tree.children, children_of(records, record.spec_id()), records)
}

/// The trees are those of `roots`, one for each and in the same order.
pub open spec fn built<N: Node>(trees: Seq<TreeView<N>>, roots: Seq<N>, records: Seq<N>) -> bool
    decreases trees,
{
    &&& trees.len() == roots.len()
    &&& forall|i: int|
        0 <= i < trees.len() ==> tree_built(#[trigger] trees[i], roots[i], records)
}

/// The forest of the records: its roots are the records without a parent,
/// the children of a record are the records that name it as their parent,
/// and every record has taken up the records of its children. No two
/// forests are built from the same records, and `new_forest` builds one
/// wherever the identifiers are unique.
pub open spec fn forest_of<N: Node>(records: Seq<N>) -> Seq<TreeView<N>> {
    choose|trees: Seq<TreeView<N>>| built(trees, roots_of(records), records)
}

/// Whether a record descends from a root in at most `steps` steps from child
/// to parent.
pub open spec fn rooted<N: Node>(records: Seq<N>, record: N, steps: nat) -> bool
    decreases steps,
{
    match record.spec_parent() {
        None => true,
        Some(parent) => steps > 0 && exists|j: int|
            0 <= j < records.len() && (#[trigger] records[j]).spec_id() == parent && rooted(
                records,
                records[j],
                (steps - 1) as nat,
            ),
    }
}

/// The identifiers listed under `id`: none where it has no list.
pub open spec fn listed(children: Map<u64, Vec<u64>>, id: u64) -> Seq<u64> {
    if children.contains_key(id) {
        children[id]@
    } else {
        Seq::empty()
    }
}

/// `nodes` holds each record under its identifier, and `children` lists under
/// an identifier records held in `nodes` that name it as their parent, none
/// of them twice.
pub open spec fn indexes<N: Node>(nodes: Map<u64, N>, children: Map<u64, Vec<u64>>) -> bool {
    &&& forall|id: u64| nodes.contains_key(id) ==> (#[trigger] nodes[id]).spec_id() == id
    &&& forall|p: u64| children.contains_key(p) ==> (#[trigger] children[p])@.no_duplicates()
    &&& forall|p: u64, j: int|
        children.contains_key(p) && 0 <= j < children[p]@.len() ==> nodes.contains_key(
            #[trigger] children[p]@[j],
        ) && nodes[children[p]@[j]].spec_parent() == Some(p)
}

/// `roots` are identifiers of records held in `nodes`, none of them twice,
/// and none with a parent that has a list in `children`.
pub open spec fn unlisted<N: Node>(
    nodes: Map<u64, N>,
    children: Map<u64, Vec<u64>>,
    roots: Seq<u64>,
) -> bool {
    &&& roots.no_duplicates()
    &&& forall|i: int|
        0 <= i < roots.len() ==> nodes.contains_key(#[trigger] roots[i]) && (nodes[roots[i]]
            .spec_parent() matches Some(p) ==> !children.contains_key(p))
}

/// The tree holds the record found under `id`, and its children are the
/// trees of the identifiers listed under `id`, in the order of the list.
pub open spec fn tree_links<N: Node>(
    tree: TreeView<N>,
    id: u64,
    nodes: Map<u64, N>,
    children: Map<u64, Vec<u64>>,
) -> bool
    decreases tree,
{
    &&& nodes.contains_key(id)
    &&& tree.node == nodes[id]
    &&& links(tree.children, listed(children, id), nodes, children)
}

/// The trees are those of the identifiers `ids`, one for each and in the
/// same order.
pub open spec fn links<N: Node>(
    trees: Seq<TreeView<N>>,
    ids: Seq<u64>,
    nodes: Map<u64, N>,
    children: Map<u64, Vec<u64>>,
) -> bool
    decreases trees,
{
    &&& trees.len() == ids.len()
    &&& forall|i: int|
        0 <= i < trees.len() ==> tree_links(#[trigger] trees[i], ids[i], nodes, children)
}

/// `after` is `before` without the entries under `ids`.
pub open spec fn removed<V>(before: Map<u64, V>, after: Map<u64, V>, ids: Seq<u64>) -> bool {
    &&& forall|k: u64| #[trigger]
        after.contains_key(k) <==> before.contains_key(k) && !ids.contains(k)
    &&& forall|k: u64| after.contains_key(k) ==> #[trigger] after[k] == before[k]
}

/// Every one of `ids` is one of `roots` or names as its parent another of
/// `ids` that has a list in `children`.
pub open spec fn descends<N: Node>(
    ids: Seq<u64>,
    roots: Seq<u64>,
    nodes: Map<u64, N>,
    children: Map<u64, Vec<u64>>,
) -> bool {
    forall|id: u64| #[trigger]
        ids.contains(id) ==> roots.contains(id) || (nodes[id].spec_parent() matches Some(p)
            && children.contains_key(p) && ids.contains(p))
}

impl<N: Node> Forest<N> {
    /// Assembles the records into a forest and rolls the metrics up. The
    /// roots are the records without a parent, in their order in `input`; the
    /// children of a record are the records that name it as their parent, in
    /// their order in `input`. A record that descends from no root is left
    /// out: one whose parent is not in `input`, its descendants, and records
    /// that name each other in a circle. The forest holds no identifier
    /// twice, and holds that of every record that descends from a root.
    pub fn new_forest(input: Vec<N>) -> (forest: Self)
        requires
            unique_ids(input@),
        ensures
            built(forest@, roots_of(input@), input@),
            forest@ == forest_of(input@),
            forest_ids(forest@).no_duplicates(),
            forall|id: u64| #[trigger]
                forest_ids(forest@).contains(id) ==> ids_of(input@).contains(id),
            forall|i: int, steps: nat|
                0 <= i < input@.len() && #[trigger] rooted(input@, input@[i], steps)
                    ==> forest_ids(forest@).contains(input@[i].spec_id()),
    {
        broadcast use group_hash_axioms;

        let ghost records = input@;
        let mut node_map: HashMap<u64, N> = HashMap::new();
        let mut children_map: HashMap<u64, Vec<u64>> = HashMap::new();
        let mut roots: Vec<u64> = Vec::new();
        proof {
            lemma_partition_of_none::<N>(records);
        }
        for node in it: input.into_iter()
            invariant
                it.seq() == records,
                unique_ids(records),
                partitioned(
                    records.take(it.index() as int),
                    node_map@,
                    children_map@,
                    roots@,
                ),
        {
            let ghost i = it.index() as int;
            let ghost nodes1 = node_map@;
            let ghost children1 = children_map@;
            let ghost roots1 = roots@;
            let id = node.id();
            match node.parent() {
                Some(parent) => {
                    let mut list = match children_map.remove(&parent) {
                        Some(list) => list,
                        None => Vec::new(),
                    };
                    list.push(id);
                    children_map.insert(parent, list);
                },
                None => {
                    roots.push(id);
                },
            }
            node_map.insert(id, node);
            proof {
                lemma_partition_of_more(
                    records,
                    i,
                    nodes1,
                    children1,
                    roots1,
                    node_map@,
                    children_map@,
                    roots@,
                );
            }
        }
        proof {
            assert(records.take(records.len() as int) =~= records);
            lemma_partition_is_index(records, node_map@, children_map@, roots@);
        }
        let ghost nodes = node_map@;
        let ghost children = children_map@;
        let mut forest = Forest::mk_forest(&mut node_map, &mut children_map, roots);
        let ghost raw = forest@;
        forest.compute_accumulate();
        proof {
            lemma_filtered_ids(records, |record: N| record.spec_parent() is None);
            lemma_built_from_index(raw, roots_of(records), records, nodes, children);
            lemma_built_is_unique(forest@, forest_of(records), roots_of(records), records);
            lemma_accumulated_ids(raw);
            assert forall|i: int, steps: nat|
                0 <= i < records.len() && #[trigger] rooted(
                    records,
                    records[i],
                    steps,
                ) implies forest_ids(forest@).contains(records[i].spec_id()) by {
                lemma_rooted_record_is_in_forest(records, forest@, records[i], steps);
            }
            assert forall|id: u64| #[trigger] forest_ids(forest@).contains(id) implies ids_of(
                records,
            ).contains(id) by {
                let k = choose|k: int| 0 <= k < records.len() && records[k].spec_id() == id;
                assert(ids_of(records)[k] == id);
            }
        }
        forest
    }

    /// Builds the trees of `roots`, taking each record out of `node_map` and
    /// the list of its children out of `children_map`.
    pub fn mk_forest(
        node_map: &mut HashMap<u64, N>,
        children_map: &mut HashMap<u64, Vec<u64>>,
        roots: Vec<u64>,
    ) -> (forest: Self)
        requires
            indexes(old(node_map)@, old(children_map)@),
            unlisted(old(node_map)@, old(children_map)@, roots@),
        ensures
            links(forest@, roots@, old(node_map)@, old(children_map)@),
            forest_ids(forest@).no_duplicates(),
            removed(old(node_map)@, final(node_map)@, forest_ids(forest@)),
            removed(old(children_map)@, final(children_map)@, forest_ids(forest@)),
            descends(forest_ids(forest@), roots@, old(node_map)@, old(children_map)@),
            forall|id: u64| #[trigger]
                forest_ids(forest@).contains(id) ==> old(node_map)@.contains_key(id),
        decreases old(node_map)@.len(),
    {
        broadcast use group_hash_axioms;

        let ghost nodes0 = node_map@;
        let ghost children0 = children_map@;
        let mut forest: Forest<N> = Forest(Vec::new());
        let mut i: usize = 0;
        while i < roots.len()
            invariant
                i <= roots@.len(),
                nodes0 == old(node_map)@,
                children0 == old(children_map)@,
                indexes(nodes0, children0),
                unlisted(nodes0, children0, roots@),
                links(forest@, roots@.take(i as int), nodes0, children0),
                forest_ids(forest@).no_duplicates(),
                removed(nodes0, node_map@, forest_ids(forest@)),
                removed(children0, children_map@, forest_ids(forest@)),
                descends(forest_ids(forest@), roots@.take(i as int), nodes0, children0),
                forall|id: u64| #[trigger]
                    forest_ids(forest@).contains(id) ==> nodes0.contains_key(id),
            decreases roots@.len() - i,
        {
            let root = roots[i];
            let ghost done = forest_ids(forest@);
            let ghost before = forest;
            let ghost nodes1 = node_map@;
            let node = node_map.remove(&root).unwrap();
            let children = match children_map.remove(&root) {
                Some(list) => list,
                None => Vec::new(),
            };
            let ghost nodes2 = node_map@;
            let ghost children2 = children_map@;
            proof {
                vstd::set_lib::lemma_len_subset(nodes1.dom(), nodes0.dom());
            }
            let subforest = Forest::mk_forest(node_map, children_map, children);
            let ghost below = forest_ids(subforest@);
            let tree = Tree { node, children: subforest };
            forest.0.push(tree);
            proof {
                lemma_view_of_push(before, forest, tree);
                lemma_ids_of_push(before@, tree@);
                lemma_links_in_larger_index(
                    subforest@,
                    children@,
                    nodes2,
                    children2,
                    nodes0,
                    children0,
                );
                lemma_ids_after_tree(
                    done,
                    root,
                    below,
                    roots@,
                    i as int,
                    nodes0,
                    children0,
                    nodes2,
                    children2,
                    children@,
                );
            }
            i = i + 1;
        }
        forest
    }

    /// Whether the forest holds a record with the identifier `id`.
    pub fn contains_id(&self, id: u64) -> (found: bool)
        ensures
            found == forest_ids(self@).contains(id),
    {
        let nodes = self.iter();
        let mut i: usize = 0;
        while i < nodes.len()
            invariant
                i <= nodes@.len(),
                nodes@.unref() == forest_nodes(self@),
                forall|k: int| 0 <= k < i ==> forest_ids(self@)[k] != id,
            decreases nodes@.len() - i,
        {
            if nodes[i].id() == id {
                assert(forest_ids(self@)[i as int] == id);
                return true;
            }
            i = i + 1;
        }
        false
    }
}

/// Whether no two of the records have the same identifier.
pub fn has_unique_ids<N: Node>(records: &Vec<N>) -> (unique: bool)
    ensures
        unique == unique_ids(records@),
{
    broadcast use group_hash_axioms;

    let mut seen: HashSet<u64> = HashSet::new();
    let mut i: usize = 0;
    while i < records.len()
        invariant
            i <= records@.len(),
            unique_ids(records@.take(i as int)),
            forall|id: u64|
                seen@.contains(id) <==> exists|k: int|
                    0 <= k < i && (#[trigger] records@[k]).spec_id() == id,
        decreases records@.len() - i,
    {
        let id = records[i].id();
        if !seen.insert(id) {
            return false;
        }
        i = i + 1;
    }
    assert(records@.take(i as int) =~= records@);
    true
}

/// A forest that is built from the records is the forest of the records.
pub proof fn lemma_forest_of_is_built<N: Node>(trees: Seq<TreeView<N>>, records: Seq<N>)
    requires
        built(trees, roots_of(records), records),
    ensures
        forest_of(records) == trees,
        built(forest_of(records), roots_of(records), records),
{
    lemma_built_is_unique(forest_of(records), trees, roots_of(records), records);
}

/// Two lists of trees built from the same roots are the same.
pub proof fn lemma_built_is_unique<N: Node>(
    first: Seq<TreeView<N>>,
    second: Seq<TreeView<N>>,
    roots: Seq<N>,
    records: Seq<N>,
)
    requires
        built(first, roots, records),
        built(second, roots, records),
    ensures
        first == second,
    decreases first,
{
    assert forall|i: int| 0 <= i < first.len() implies first[i] == second[i] by {
        lemma_built_is_unique(
            first[i].children,
            second[i].children,
            children_of(records, roots[i].spec_id()),
            records,
        );
    }
}

/// Rolling the metrics up leaves the identifiers where they were.
pub proof fn lemma_accumulated_ids<N: Node>(trees: Seq<TreeView<N>>)
    ensures
        forest_ids(accumulated(trees)) == forest_ids(trees),
    decreases trees,
{
    if trees.len() > 0 {
        let rest = trees.drop_last();
        let tree = trees.last();
        lemma_accumulated_ids(rest);
        lemma_accumulated_ids(tree.children);
        lemma_absorb_all_keeps_identity(tree.node, accumulated(tree.children));
        assert(accumulated(trees) =~= accumulated(rest).push(accumulated_tree(tree)));
        assert(trees =~= rest.push(tree));
        lemma_ids_of_push(accumulated(rest), accumulated_tree(tree));
        lemma_ids_of_push(rest, tree);
    }
}

/// Every identifier of trees built from records is the identifier of one of
/// the records.
pub proof fn lemma_built_ids_are_record_ids<N: Node>(
    trees: Seq<TreeView<N>>,
    roots: Seq<N>,
    records: Seq<N>,
)
    requires
        unique_ids(records),
        built(trees, roots, records),
        forall|j: int| 0 <= j < roots.len() ==> records.contains(#[trigger] roots[j]),
    ensures
        forall|id: u64| #[trigger] forest_ids(trees).contains(id) ==> ids_of(records).contains(id),
    decreases trees,
{
    if trees.len() > 0 {
        let rest = trees.drop_last();
        let last = trees.last();
        let record = roots[trees.len() - 1];
        assert(trees =~= rest.push(last));
        lemma_ids_of_push(rest, last);
        assert(built(rest, roots.drop_last(), records)) by {
            assert forall|i: int| 0 <= i < rest.len() implies tree_built(
                #[trigger] rest[i],
                roots.drop_last()[i],
                records,
            ) by {
                assert(tree_built(trees[i], roots[i], records));
            }
        }
        assert forall|j: int| 0 <= j < roots.drop_last().len() implies records.contains(
            #[trigger] roots.drop_last()[j],
        ) by {
            assert(records.contains(roots[j]));
        }
        lemma_built_ids_are_record_ids(rest, roots.drop_last(), records);
        assert(tree_built(trees[trees.len() - 1], record, records));
        lemma_filtered_ids(records, |other: N| other.spec_parent() == Some(record.spec_id()));
        lemma_built_ids_are_record_ids(
            last.children,
            children_of(records, record.spec_id()),
            records,
        );
        lemma_absorb_all_keeps_identity(record, last.children);
        assert(records.contains(record));
        let at = choose|at: int| 0 <= at < records.len() && records[at] == record;
        assert(ids_of(records)[at] == last.node.spec_id());
        let ids = forest_ids(trees);
        let before = forest_ids(rest);
        let below = forest_ids(last.children);
        assert(ids =~= before + seq![last.node.spec_id()] + below);
        assert forall|id: u64| #[trigger] ids.contains(id) implies ids_of(records).contains(id) by {
            let k = choose|k: int| 0 <= k < ids.len() && ids[k] == id;
            if k < before.len() {
                assert(before[k] == id);
                assert(before.contains(id));
            } else if k == before.len() {
                assert(id == last.node.spec_id());
            } else {
                assert(below[k - before.len() - 1] == id);
                assert(below.contains(id));
            }
        }
    } else {
        assert(forest_ids(trees) =~= Seq::<u64>::empty());
    }
}

/// Every identifier of the forest built from records is the identifier of
/// one of the records.
pub proof fn lemma_forest_ids_are_record_ids<N: Node>(trees: Seq<TreeView<N>>, records: Seq<N>)
    requires
        unique_ids(records),
        built(trees, roots_of(records), records),
    ensures
        forall|id: u64| #[trigger] forest_ids(trees).contains(id) ==> ids_of(records).contains(id),
{
    lemma_filtered_ids(records, |record: N| record.spec_parent() is None);
    lemma_built_ids_are_record_ids(trees, roots_of(records), records);
}

/// A record that descends from a root has its tree in the forest.
pub proof fn lemma_rooted_record_has_tree<N: Node>(
    records: Seq<N>,
    trees: Seq<TreeView<N>>,
    record: N,
    steps: nat,
)
    requires
        built(trees, roots_of(records), records),
        records.contains(record),
        rooted(records, record, steps),
    ensures
        exists|tree: TreeView<N>| #[trigger] occurs(trees, tree) && tree_built(tree, record, records),
    decreases steps,
{
    let at = choose|at: int| 0 <= at < records.len() && records[at] == record;
    match record.spec_parent() {
        None => {
            let is_root = |other: N| other.spec_parent() is None;
            records.lemma_filter_contains(is_root, at);
            let roots = roots_of(records);
            let k = choose|k: int| 0 <= k < roots.len() && roots[k] == record;
            assert(occurs(trees, trees[k]));
        },
        Some(parent) => {
            let j = choose|j: int|
                0 <= j < records.len() && (#[trigger] records[j]).spec_id() == parent && rooted(
                    records,
                    records[j],
                    (steps - 1) as nat,
                );
            lemma_rooted_record_has_tree(records, trees, records[j], (steps - 1) as nat);
            let above = choose|tree: TreeView<N>| #[trigger]
                occurs(trees, tree) && tree_built(tree, records[j], records);
            let names_parent = |other: N| other.spec_parent() == Some(parent);
            records.lemma_filter_contains(names_parent, at);
            let siblings = children_of(records, parent);
            let k = choose|k: int| 0 <= k < siblings.len() && siblings[k] == record;
            lemma_occurs_below(trees, above, above.children[k]);
        },
    }
}

/// The forest holds the identifier of every record that descends from a
/// root.
pub proof fn lemma_rooted_record_is_in_forest<N: Node>(
    records: Seq<N>,
    trees: Seq<TreeView<N>>,
    record: N,
    steps: nat,
)
    requires
        built(trees, roots_of(records), records),
        records.contains(record),
        rooted(records, record, steps),
    ensures
        forest_ids(trees).contains(record.spec_id()),
{
    lemma_rooted_record_has_tree(records, trees, record, steps);
    let tree = choose|tree: TreeView<N>| #[trigger]
        occurs(trees, tree) && tree_built(tree, record, records);
    lemma_occurring_tree_is_listed(trees, tree);
    lemma_absorb_all_keeps_identity(record, tree.children);
    let nodes = forest_nodes(trees);
    let k = choose|k: int| 0 <= k < nodes.len() && nodes[k] == tree.node;
    assert(forest_ids(trees)[k] == record.spec_id());
}

/// The identifiers of a list of trees with one more tree at its end.
proof fn lemma_ids_of_push<N: Node>(trees: Seq<TreeView<N>>, tree: TreeView<N>)
    ensures
        forest_ids(trees.push(tree)) == forest_ids(trees) + seq![tree.node.spec_id()] + forest_ids(
            tree.children,
        ),
{
    let all = trees.push(tree);
    assert(all.drop_last() =~= trees);
    assert(forest_nodes(all) == forest_nodes(all.drop_last()) + tree_nodes(all.last()));
}

/// Trees that link through an index link as well through a larger one that
/// lists the same under every identifier of the smaller.
proof fn lemma_links_in_larger_index<N: Node>(
    trees: Seq<TreeView<N>>,
    ids: Seq<u64>,
    nodes: Map<u64, N>,
    children: Map<u64, Vec<u64>>,
    more_nodes: Map<u64, N>,
    more_children: Map<u64, Vec<u64>>,
)
    requires
        links(trees, ids, nodes, children),
        forall|k: u64| #[trigger]
            nodes.contains_key(k) ==> more_nodes.contains_key(k) && more_nodes[k] == nodes[k]
                && listed(more_children, k) == listed(children, k),
    ensures
        links(trees, ids, more_nodes, more_children),
    decreases trees,
{
    assert forall|i: int| 0 <= i < trees.len() implies tree_links(
        #[trigger] trees[i],
        ids[i],
        more_nodes,
        more_children,
    ) by {
        lemma_links_in_larger_index(
            trees[i].children,
            listed(children, ids[i]),
            nodes,
            children,
            more_nodes,
            more_children,
        );
    }
}

/// What the first pass over the records leaves: every record under its
/// identifier, the identifiers of the roots, and under every identifier the
/// identifiers of the records that name it as their parent.
spec fn partitioned<N: Node>(
    records: Seq<N>,
    nodes: Map<u64, N>,
    children: Map<u64, Vec<u64>>,
    roots: Seq<u64>,
) -> bool {
    &&& forall|i: int|
        0 <= i < records.len() ==> nodes.contains_key((#[trigger] records[i]).spec_id())
            && nodes[records[i].spec_id()] == records[i]
    &&& forall|id: u64| #[trigger]
        nodes.contains_key(id) ==> exists|i: int|
            0 <= i < records.len() && (#[trigger] records[i]).spec_id() == id
    &&& roots == ids_of(roots_of(records))
    &&& forall|id: u64| #[trigger] listed(children, id) == ids_of(children_of(records, id))
}

/// Before the first record the index is empty.
proof fn lemma_partition_of_none<N: Node>(records: Seq<N>)
    ensures
        partitioned(
            records.take(0),
            Map::<u64, N>::empty(),
            Map::<u64, Vec<u64>>::empty(),
            Seq::empty(),
        ),
{
    reveal(Seq::filter);
    let none = records.take(0);
    assert(ids_of(roots_of(none)) =~= Seq::<u64>::empty());
}

/// The index of one more record: the record under its identifier, and its
/// identifier among the roots or at the end of the list of its parent.
proof fn lemma_partition_of_more<N: Node>(
    records: Seq<N>,
    i: int,
    nodes1: Map<u64, N>,
    children1: Map<u64, Vec<u64>>,
    roots1: Seq<u64>,
    nodes2: Map<u64, N>,
    children2: Map<u64, Vec<u64>>,
    roots2: Seq<u64>,
)
    requires
        0 <= i < records.len(),
        unique_ids(records),
        partitioned(records.take(i), nodes1, children1, roots1),
        nodes2 == nodes1.insert(records[i].spec_id(), records[i]),
        match records[i].spec_parent() {
            Some(parent) => {
                &&& roots2 == roots1
                &&& forall|k: u64| #[trigger]
                    children2.contains_key(k) <==> children1.contains_key(k) || k == parent
                &&& children2[parent]@ == listed(children1, parent).push(records[i].spec_id())
                &&& forall|k: u64| k != parent && children1.contains_key(k) ==> children2[k] == children1[k]
            },
            None => {
                &&& roots2 == roots1.push(records[i].spec_id())
                &&& children2 == children1
            },
        },
    ensures
        partitioned(records.take(i + 1), nodes2, children2, roots2),
{
    reveal(Seq::filter);
    let before = records.take(i);
    let now = records.take(i + 1);
    let record = records[i];
    assert(now.drop_last() =~= before);
    assert(ids_of(roots_of(now)) =~= if record.spec_parent() is None {
        ids_of(roots_of(before)).push(record.spec_id())
    } else {
        ids_of(roots_of(before))
    });
    assert forall|id: u64| #[trigger] listed(children2, id) == ids_of(children_of(now, id)) by {
        assert(listed(children1, id) == ids_of(children_of(before, id)));
    }
}

/// A record of a filtered sequence is a record of the sequence that
/// satisfies the predicate, and records keep their order.
proof fn lemma_filter_keeps_order<N>(records: Seq<N>, pred: spec_fn(N) -> bool)
    ensures
        forall|j: int|
            0 <= j < records.filter(pred).len() ==> pred(#[trigger] records.filter(pred)[j]),
        exists|at: Seq<int>|
            {
                &&& at.len() == records.filter(pred).len()
                &&& forall|j: int|
                    0 <= j < at.len() ==> 0 <= #[trigger] at[j] < records.len() && records[at[j]]
                        == records.filter(pred)[j]
                &&& forall|j: int, k: int| 0 <= j < k < at.len() ==> at[j] < at[k]
            },
    decreases records.len(),
{
    reveal(Seq::filter);
    if records.len() == 0 {
        let at = Seq::<int>::empty();
        assert(at.len() == records.filter(pred).len());
    } else {
        let rest = records.drop_last();
        lemma_filter_keeps_order(rest, pred);
        let at = choose|at: Seq<int>|
            {
                &&& at.len() == rest.filter(pred).len()
                &&& forall|j: int|
                    0 <= j < at.len() ==> 0 <= #[trigger] at[j] < rest.len() && rest[at[j]]
                        == rest.filter(pred)[j]
                &&& forall|j: int, k: int| 0 <= j < k < at.len() ==> at[j] < at[k]
            };
        if pred(records.last()) {
            let more = at.push(records.len() - 1);
            assert forall|j: int| 0 <= j < more.len() implies 0 <= #[trigger] more[j]
                < records.len() && records[more[j]] == records.filter(pred)[j] by {}
        }
    }
}

/// What the first pass leaves is an index in which the roots are unlisted.
proof fn lemma_partition_is_index<N: Node>(
    records: Seq<N>,
    nodes: Map<u64, N>,
    children: Map<u64, Vec<u64>>,
    roots: Seq<u64>,
)
    requires
        unique_ids(records),
        partitioned(records, nodes, children, roots),
    ensures
        indexes(nodes, children),
        unlisted(nodes, children, roots),
{
    assert forall|p: u64| children.contains_key(p) implies (#[trigger] children[p])@.no_duplicates() by {
        assert(listed(children, p) == ids_of(children_of(records, p)));
        lemma_filtered_ids(records, |record: N| record.spec_parent() == Some(p));
    }
    assert forall|p: u64, j: int|
        children.contains_key(p) && 0 <= j < children[p]@.len() implies nodes.contains_key(
        #[trigger] children[p]@[j],
    ) && nodes[children[p]@[j]].spec_parent() == Some(p) by {
        assert(listed(children, p) == ids_of(children_of(records, p)));
        lemma_filtered_ids(records, |record: N| record.spec_parent() == Some(p));
    }
    lemma_filtered_ids(records, |record: N| record.spec_parent() is None);
}

/// The records of a filtered sequence satisfy the predicate and are records
/// of the sequence, and where identifiers are unique in the sequence, so are
/// they among the filtered.
proof fn lemma_filtered_ids<N: Node>(records: Seq<N>, pred: spec_fn(N) -> bool)
    requires
        unique_ids(records),
    ensures
        ids_of(records.filter(pred)).no_duplicates(),
        forall|j: int|
            0 <= j < records.filter(pred).len() ==> pred(#[trigger] records.filter(pred)[j])
                && records.contains(records.filter(pred)[j]),
{
    lemma_filter_keeps_order(records, pred);
    let kept = records.filter(pred);
    let at = choose|at: Seq<int>|
        {
            &&& at.len() == kept.len()
            &&& forall|j: int|
                0 <= j < at.len() ==> 0 <= #[trigger] at[j] < records.len() && records[at[j]]
                    == kept[j]
            &&& forall|j: int, k: int| 0 <= j < k < at.len() ==> at[j] < at[k]
        };
    assert forall|j: int, k: int|
        0 <= j < ids_of(kept).len() && 0 <= k < ids_of(kept).len() && j != k implies ids_of(
        kept,
    )[j] != ids_of(kept)[k] by {
        assert(records[at[j]] == kept[j]);
        assert(records[at[k]] == kept[k]);
    }
    assert forall|j: int| 0 <= j < kept.len() implies pred(#[trigger] kept[j]) && records.contains(
        kept[j],
    ) by {
        assert(records[at[j]] == kept[j]);
    }
}

/// Trees that link through the index of `records`, rolled up, are the trees
/// built from `records`.
proof fn lemma_built_from_index<N: Node>(
    trees: Seq<TreeView<N>>,
    roots: Seq<N>,
    records: Seq<N>,
    nodes: Map<u64, N>,
    children: Map<u64, Vec<u64>>,
)
    requires
        unique_ids(records),
        partitioned(records, nodes, children, ids_of(roots_of(records))),
        links(trees, ids_of(roots), nodes, children),
        forall|j: int| 0 <= j < roots.len() ==> records.contains(#[trigger] roots[j]),
    ensures
        built(accumulated(trees), roots, records),
    decreases trees,
{
    assert forall|i: int| 0 <= i < trees.len() implies tree_built(
        #[trigger] accumulated(trees)[i],
        roots[i],
        records,
    ) by {
        let tree = trees[i];
        let record = roots[i];
        let id = record.spec_id();
        lemma_filtered_ids(records, |other: N| other.spec_parent() == Some(id));
        lemma_built_from_index(tree.children, children_of(records, id), records, nodes, children);
    }
}

/// What holds of the identifiers of the forest once the tree of the next
/// root, with the records `below` it, has been added.
proof fn lemma_ids_after_tree<N: Node>(
    done: Seq<u64>,
    root: u64,
    below: Seq<u64>,
    roots: Seq<u64>,
    i: int,
    nodes0: Map<u64, N>,
    children0: Map<u64, Vec<u64>>,
    nodes2: Map<u64, N>,
    children2: Map<u64, Vec<u64>>,
    list: Seq<u64>,
)
    requires
        0 <= i < roots.len(),
        root == roots[i],
        list == listed(children0, root),
        indexes(nodes0, children0),
        unlisted(nodes0, children0, roots),
        done.no_duplicates(),
        below.no_duplicates(),
        !done.contains(root),
        descends(done, roots.take(i), nodes0, children0),
        descends(below, list, nodes2, children2),
        forall|id: u64| #[trigger] done.contains(id) ==> nodes0.contains_key(id),
        forall|id: u64| #[trigger] below.contains(id) ==> nodes2.contains_key(id),
        forall|k: u64| #[trigger]
            nodes2.contains_key(k) <==> nodes0.contains_key(k) && !done.contains(k) && k != root,
        forall|k: u64| nodes2.contains_key(k) ==> #[trigger] nodes2[k] == nodes0[k],
        forall|k: u64| #[trigger]
            children2.contains_key(k) <==> children0.contains_key(k) && !done.contains(k) && k
                != root,
    ensures
        (done + seq![root] + below).no_duplicates(),
        descends(done + seq![root] + below, roots.take(i + 1), nodes0, children0),
        forall|id: u64| #[trigger]
            (done + seq![root] + below).contains(id) ==> nodes0.contains_key(id),
        forall|id: u64| #[trigger]
            (done + seq![root] + below).contains(id) <==> done.contains(id) || id == root
                || below.contains(id),
{
    let ids = done + seq![root] + below;
    assert forall|id: u64| #[trigger] ids.contains(id) <==> done.contains(id) || id == root
        || below.contains(id) by {
        if done.contains(id) {
            let k = choose|k: int| 0 <= k < done.len() && done[k] == id;
            assert(ids[k] == id);
        }
        if id == root {
            assert(ids[done.len() as int] == id);
        }
        if below.contains(id) {
            let k = choose|k: int| 0 <= k < below.len() && below[k] == id;
            assert(ids[done.len() + 1 + k] == id);
        }
    }
    assert forall|a: int, b: int|
        0 <= a < (done + seq![root]).len() && 0 <= b < below.len() implies (done + seq![root])[a]
        != below[b] by {
        assert(below.contains(below[b]));
    }
    let grown = roots.take(i + 1);
    assert(grown[i] == root);
    assert forall|id: u64| #[trigger] ids.contains(id) implies grown.contains(id) || (
    nodes0[id].spec_parent() matches Some(p) && children0.contains_key(p) && ids.contains(p)) by {
    }
}

} // verus!
