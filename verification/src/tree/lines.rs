//! The lines of a forest: one for each record, with the glyphs that place it
//! in its tree.

use crate::tree::{forest_nodes, tree_nodes, Forest, Node, TreeView};
use vstd::prelude::*;

verus! {

/// The glyphs that join a line to its parent: the branch, which closes with
/// the last sibling, and the marker that tells whether children follow.
pub open spec fn branch_glyphs(is_last: bool, has_children: bool) -> Seq<char> {
    (if is_last {
        "└─"@
    } else {
        "├─"@
    }) + (if has_children {
        "┬ "@
    } else {
        "─ "@
    })
}

/// What a tree below the roots puts in front of the lines of its descendants:
/// blank under a last sibling, a vertical bar under any other.
pub open spec fn continuation(is_last: bool) -> Seq<char> {
    if is_last {
        "  "@
    } else {
        "│ "@
    }
}

/// The texts of `parts` one after the other.
pub open spec fn joined(parts: Seq<&'static str>) -> Seq<char>
    decreases parts.len(),
{
    if parts.len() == 0 {
        Seq::empty()
    } else {
        joined(parts.drop_last()) + parts.last()@
    }
}

/// The lines of a tree: that of its own record, then those of its children.
/// A root's line has the indentation alone; below the roots a line has the
/// indentation and the branch glyphs, and the descendants are indented by one
/// more continuation.
pub open spec fn tree_lines<N>(
    tree: TreeView<N>,
    is_root: bool,
    is_last: bool,
    indent: Seq<char>,
) -> Seq<(Seq<char>, N)>
    decreases tree,
{
    let prefix = if is_root {
        indent
    } else {
        indent + branch_glyphs(is_last, tree.children.len() > 0)
    };
    let deeper = if is_root {
        indent
    } else {
        indent + continuation(is_last)
    };
    seq![(prefix, tree.node)] + forest_lines(tree.children, false, deeper)
}

/// The lines of the first `count` trees of `trees`; the last sibling is the
/// last of all of `trees`.
pub open spec fn forest_lines_upto<N>(
    trees: Seq<TreeView<N>>,
    count: nat,
    is_root: bool,
    indent: Seq<char>,
) -> Seq<(Seq<char>, N)>
    decreases trees, count,
{
    if count == 0 || count > trees.len() {
        Seq::empty()
    } else {
        forest_lines_upto(trees, (count - 1) as nat, is_root, indent) + tree_lines(
            trees[count - 1],
            is_root,
            count == trees.len(),
            indent,
        )
    }
}

/// The lines of a list of sibling trees, one line for each record, in
/// depth-first order.
pub open spec fn forest_lines<N>(trees: Seq<TreeView<N>>, is_root: bool, indent: Seq<char>) -> Seq<
    (Seq<char>, N),
>
    decreases trees, trees.len() + 1,
{
    forest_lines_upto(trees, trees.len(), is_root, indent)
}

/// The lines held by a vector, each as its text and its record.
pub open spec fn line_views<N>(lines: Seq<(String, &N)>) -> Seq<(Seq<char>, N)> {
    lines.map_values(|line: (String, &N)| (line.0@, *line.1))
}

/// The lines of a list of trees are one for each record, in depth-first
/// order.
pub proof fn lemma_lines_are_nodes<N>(trees: Seq<TreeView<N>>, is_root: bool, indent: Seq<char>)
    ensures
        forest_lines(trees, is_root, indent).map_values(|line: (Seq<char>, N)| line.1)
            == forest_nodes(trees),
    decreases trees, trees.len() + 1,
{
    lemma_lines_upto_are_nodes(trees, trees.len(), is_root, indent);
    assert(trees.take(trees.len() as int) =~= trees);
}

/// The lines of the first trees of a list are one for each of their
/// records, in depth-first order.
pub proof fn lemma_lines_upto_are_nodes<N>(
    trees: Seq<TreeView<N>>,
    count: nat,
    is_root: bool,
    indent: Seq<char>,
)
    requires
        count <= trees.len(),
    ensures
        forest_lines_upto(trees, count, is_root, indent).map_values(|line: (Seq<char>, N)| line.1)
            == forest_nodes(trees.take(count as int)),
    decreases trees, count,
{
    let node_of = |line: (Seq<char>, N)| line.1;
    if count > 0 {
        let tree = trees[count - 1];
        let is_last = count == trees.len();
        lemma_lines_upto_are_nodes(trees, (count - 1) as nat, is_root, indent);
        let deeper = if is_root {
            indent
        } else {
            indent + continuation(is_last)
        };
        lemma_lines_are_nodes(tree.children, false, deeper);
        let first = trees.take(count as int);
        assert(first.drop_last() =~= trees.take(count - 1));
        assert(tree_lines(tree, is_root, is_last, indent).map_values(node_of) =~= tree_nodes(tree));
    }
}

impl<N: Node> Forest<N> {
    /// The lines of the forest, each with the box-drawing prefix that places
    /// its record in the tree: roots have no prefix.
    pub fn render_forest_prefixes(&self) -> (lines: Vec<(String, &N)>)
        ensures
            line_views(lines@) == forest_lines(self@, true, Seq::empty()),
    {
        let mut acc: Vec<(String, &N)> = Vec::new();
        let mut prefixes: Vec<&'static str> = Vec::new();
        self.render_forest_prefixes_helper(true, &mut prefixes, &mut acc);
        acc
    }

    /// Appends the lines of these sibling trees to `acc`. `prefixes` holds the
    /// continuations of the ancestors, and is handed back as it came.
    pub fn render_forest_prefixes_helper<'a>(
        &'a self,
        is_root: bool,
        prefixes: &mut Vec<&'static str>,
        acc: &mut Vec<(String, &'a N)>,
    )
        ensures
            final(prefixes)@ == old(prefixes)@,
            line_views(final(acc)@) == line_views(old(acc)@) + forest_lines(
                self@,
                is_root,
                joined(old(prefixes)@),
            ),
        decreases self,
    {
        let count = self.0.len();
        let mut i: usize = 0;
        while i < count
            invariant
                count == self@.len(),
                count == self.0@.len(),
                i <= count,
                prefixes@ == old(prefixes)@,
                line_views(acc@) == line_views(old(acc)@) + forest_lines_upto(
                    self@,
                    i as nat,
                    is_root,
                    joined(old(prefixes)@),
                ),
            decreases count - i,
        {
            let ghost before = acc@;
            let ghost indent = joined(prefixes@);
            let child = &self.0[i];
            let is_last = i == count - 1;
            let has_children = child.children.0.len() > 0;
            let mut line = String::new();
            let mut j: usize = 0;
            while j < prefixes.len()
                invariant
                    j <= prefixes@.len(),
                    line@ == joined(prefixes@.take(j as int)),
                decreases prefixes@.len() - j,
            {
                line.append(prefixes[j]);
                proof {
                    let next = prefixes@.take(j + 1);
                    assert(next.drop_last() =~= prefixes@.take(j as int));
                }
                j = j + 1;
            }
            assert(prefixes@.take(j as int) =~= prefixes@);
            if !is_root {
                line.append(if is_last { "└─" } else { "├─" });
                line.append(if has_children { "┬ " } else { "─ " });
            }
            let ghost text = line@;
            assert(text =~= if is_root {
                indent
            } else {
                indent + branch_glyphs(is_last, has_children)
            });
            acc.push((line, &child.node));
            let ghost pushed = acc@;
            assert(line_views(pushed) =~= line_views(before).push((text, self@[i as int].node)));
            if !is_root {
                prefixes.push(if is_last { "  " } else { "│ " });
                assert(prefixes@.drop_last() =~= old(prefixes)@);
            }
            let ghost deeper = joined(prefixes@);
            child.children.render_forest_prefixes_helper(false, prefixes, acc);
            if !is_root {
                prefixes.pop();
            }
            proof {
                let tree = self@[i as int];
                assert(tree_lines(tree, is_root, is_last, indent) =~= seq![(text, tree.node)]
                    + forest_lines(tree.children, false, deeper));
            }
            i = i + 1;
        }
    }
}

} // verus!
