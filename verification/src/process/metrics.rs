//! What rolling the metrics up does to processes: every process comes to
//! hold the sums over itself and its descendants.

use crate::process::Process;
use crate::tree::rollup::{absorb_all, accumulated, accumulated_tree};
use crate::tree::{forest_nodes, tree_nodes, Node, TreeView};
use vstd::prelude::*;

verus! {

/// The sum of a metric over a list of processes.
pub open spec fn total(processes: Seq<Process>, metric: spec_fn(Process) -> u64) -> int
    decreases processes.len(),
{
    if processes.len() == 0 {
        0
    } else {
        total(processes.drop_last(), metric) + metric(processes.last())
    }
}

/// A sum as a metric holds it: no more than the largest number that fits.
pub open spec fn capped(sum: int) -> u64 {
    if sum > u64::MAX {
        u64::MAX
    } else {
        sum as u64
    }
}

/// The processor share of a process.
pub open spec fn cpu_of() -> spec_fn(Process) -> u64 {
    |process: Process| process.cpu
}

/// The memory of a process.
pub open spec fn ram_of() -> spec_fn(Process) -> u64 {
    |process: Process| process.ram
}

/// The sum over two lists is the sum of their sums.
pub proof fn lemma_total_of_both(
    first: Seq<Process>,
    second: Seq<Process>,
    metric: spec_fn(Process) -> u64,
)
    ensures
        total(first + second, metric) == total(first, metric) + total(second, metric),
    decreases second.len(),
{
    if second.len() > 0 {
        assert((first + second).drop_last() =~= first + second.drop_last());
        lemma_total_of_both(first, second.drop_last(), metric);
    }
}

/// A sum of metrics is not negative.
pub proof fn lemma_total_is_natural(processes: Seq<Process>, metric: spec_fn(Process) -> u64)
    ensures
        total(processes, metric) >= 0,
    decreases processes.len(),
{
    if processes.len() > 0 {
        lemma_total_is_natural(processes.drop_last(), metric);
    }
}

/// The sum over one process is its metric.
pub proof fn lemma_total_of_one(process: Process, metric: spec_fn(Process) -> u64)
    ensures
        total(seq![process], metric) == metric(process),
{
    let one = seq![process];
    assert(one.drop_last() =~= Seq::<Process>::empty());
    assert(total(Seq::<Process>::empty(), metric) == 0);
}

/// What a process has taken up from the first `count` of its children, once
/// their own metrics are rolled up.
proof fn lemma_absorbed_totals(node: Process, children: Seq<TreeView<Process>>, count: nat)
    requires
        count <= children.len(),
        forall|i: int|
            0 <= i < children.len() ==> {
                &&& accumulated_tree(#[trigger] children[i]).node.cpu == capped(
                    total(tree_nodes(children[i]), cpu_of()),
                )
                &&& accumulated_tree(children[i]).node.ram == capped(
                    total(tree_nodes(children[i]), ram_of()),
                )
            },
    ensures
        absorb_all(node, accumulated(children).take(count as int)).cpu == capped(
            node.cpu + total(forest_nodes(children.take(count as int)), cpu_of()),
        ),
        absorb_all(node, accumulated(children).take(count as int)).ram == capped(
            node.ram + total(forest_nodes(children.take(count as int)), ram_of()),
        ),
        absorb_all(node, accumulated(children).take(count as int)) == (Process {
            cpu: absorb_all(node, accumulated(children).take(count as int)).cpu,
            ram: absorb_all(node, accumulated(children).take(count as int)).ram,
            ..node
        }),
    decreases count,
{
    let rolled = accumulated(children);
    if count > 0 {
        lemma_absorbed_totals(node, children, (count - 1) as nat);
        let child = children[count - 1];
        let now = children.take(count as int);
        assert(now.drop_last() =~= children.take(count - 1));
        lemma_total_of_both(forest_nodes(now.drop_last()), tree_nodes(child), cpu_of());
        lemma_total_of_both(forest_nodes(now.drop_last()), tree_nodes(child), ram_of());
        let taken = rolled.take(count as int);
        assert(taken.drop_last() =~= rolled.take(count - 1));
        lemma_total_is_natural(forest_nodes(now.drop_last()), cpu_of());
        lemma_total_is_natural(forest_nodes(now.drop_last()), ram_of());
        lemma_total_is_natural(tree_nodes(child), cpu_of());
        lemma_total_is_natural(tree_nodes(child), ram_of());
    }
}

/// After the metrics are rolled up, the processor share and the memory of a
/// process are its own and those of all its descendants together, and no
/// more than the largest number that fits. Nothing else of it has changed.
/// The same holds of each of its descendants.
pub proof fn lemma_accumulated_totals(tree: TreeView<Process>)
    ensures
        accumulated_tree(tree).node.cpu == capped(total(tree_nodes(tree), cpu_of())),
        accumulated_tree(tree).node.ram == capped(total(tree_nodes(tree), ram_of())),
        accumulated_tree(tree).node == (Process {
            cpu: accumulated_tree(tree).node.cpu,
            ram: accumulated_tree(tree).node.ram,
            ..tree.node
        }),
        accumulated_tree(tree).children.len() == tree.children.len(),
        forall|i: int|
            0 <= i < tree.children.len() ==> #[trigger] accumulated_tree(tree).children[i]
                == accumulated_tree(tree.children[i]),
    decreases tree,
{
    let children = tree.children;
    assert forall|i: int| 0 <= i < children.len() implies {
        &&& accumulated_tree(#[trigger] children[i]).node.cpu == capped(
            total(tree_nodes(children[i]), cpu_of()),
        )
        &&& accumulated_tree(children[i]).node.ram == capped(
            total(tree_nodes(children[i]), ram_of()),
        )
    } by {
        lemma_accumulated_totals(children[i]);
    }
    lemma_absorbed_totals(tree.node, children, children.len());
    assert(children.take(children.len() as int) =~= children);
    assert(accumulated(children).take(children.len() as int) =~= accumulated(children));
    lemma_total_of_both(seq![tree.node], forest_nodes(children), cpu_of());
    lemma_total_of_both(seq![tree.node], forest_nodes(children), ram_of());
    lemma_total_of_one(tree.node, cpu_of());
    lemma_total_of_one(tree.node, ram_of());
}

} // verus!
