use std::fmt::Display;
use treetop::tree::{Forest, Node};
use unindent::Unindent;

fn render_number(n: usize) -> &'static str {
    match n {
        1 => "one",
        2 => "two",
        3 => "three",
        4 => "four",
        5 => "five",
        n => panic!("render_number: out of range: {}", n),
    }
}

#[derive(Debug)]
struct TestNode {
    id: usize,
    parent: Option<usize>,
}

impl TestNode {
    fn new(id: usize, parent: Option<usize>) -> TestNode {
        TestNode { id, parent }
    }
}

impl Display for TestNode {
    fn fmt(&self, f: &mut std::fmt::Formatter<'_>) -> std::fmt::Result {
        f.write_str(render_number(self.id))
    }
}

impl Node for TestNode {
    fn spec_id(&self) -> u64 {
        self.id as u64
    }

    fn spec_parent(&self) -> Option<u64> {
        self.parent.map(|parent| parent as u64)
    }

    fn merged(self, _other: Self) -> Self {
        self
    }

    fn id(&self) -> u64 {
        self.id as u64
    }

    fn parent(&self) -> Option<u64> {
        self.parent.map(|parent| parent as u64)
    }

    fn accumulate_from(&mut self, _other: &Self) {}

    fn merged_keeps_identity(self, _other: Self) {}
}

fn test_format<N: Node + Display>(forest: &Forest<N>) -> String {
    let table: Vec<String> = forest
        .render_forest_prefixes()
        .into_iter()
        .map(|x| format!("{}{}", x.0, x.1))
        .collect();
    format!("{}\n", table.join("\n"))
}

#[test]
fn a_single_node_tree() {
    let tree = Forest::new_forest(vec![TestNode::new(1, None)]);
    assert_eq!(
        test_format(&tree),
        "
            one
        "
        .unindent()
    );
}

#[test]
fn b_child() {
    let tree = Forest::new_forest(vec![TestNode::new(1, None), TestNode::new(2, Some(1))]);
    assert_eq!(
        test_format(&tree),
        "
            one
            └── two
        "
        .unindent()
    );
}

#[test]
fn c_children() {
    let tree = Forest::new_forest(vec![
        TestNode::new(1, None),
        TestNode::new(2, Some(1)),
        TestNode::new(3, Some(1)),
        TestNode::new(4, Some(1)),
    ]);
    assert_eq!(
        test_format(&tree),
        "
            one
            ├── two
            ├── three
            └── four
        "
        .unindent()
    );
}

#[test]
fn d_grandchildren() {
    let tree = Forest::new_forest(vec![
        TestNode::new(1, None),
        TestNode::new(2, Some(1)),
        TestNode::new(3, Some(2)),
    ]);
    assert_eq!(
        test_format(&tree),
        "
            one
            └─┬ two
              └── three
        "
        .unindent()
    );
}

#[test]
fn e_bigger() {
    let tree = Forest::new_forest(vec![
        TestNode::new(1, None),
        TestNode::new(2, Some(1)),
        TestNode::new(3, Some(2)),
        TestNode::new(4, Some(1)),
    ]);
    assert_eq!(
        test_format(&tree),
        "
            one
            ├─┬ two
            │ └── three
            └── four
        "
        .unindent()
    );
}

#[test]
fn f_multiple_roots() {
    let tree = Forest::new_forest(vec![TestNode::new(1, None), TestNode::new(2, None)]);
    assert_eq!(
        test_format(&tree),
        "
            one
            two
        "
        .unindent()
    );
}

#[test]
fn g_allows_sorting_roots_by_cmp() {
    let mut tree = Forest::new_forest(vec![TestNode::new(1, None), TestNode::new(2, None)]);
    tree.sort_by(&|a: &TestNode, b: &TestNode| b.id.cmp(&a.id));
    assert_eq!(
        test_format(&tree),
        "
            two
            one
        "
        .unindent()
    );
}

#[test]
fn a_filters_nodes() {
    let mut tree = Forest::new_forest(vec![TestNode::new(1, None), TestNode::new(2, None)]);
    tree.filter(|node: &TestNode| node.id == 2);
    assert_eq!(
        test_format(&tree),
        "
            two
        "
        .unindent()
    );
}

#[test]
fn b_shows_children_of_included_nodes() {
    let mut tree = Forest::new_forest(vec![
        TestNode::new(1, None),
        TestNode::new(2, Some(1)),
        TestNode::new(3, None),
    ]);
    tree.filter(|node: &TestNode| node.id == 1);
    assert_eq!(
        test_format(&tree),
        "
            one
            └── two
        "
        .unindent()
    );
}

#[test]
fn c_shows_parents_of_included_nodes() {
    let mut tree = Forest::new_forest(vec![
        TestNode::new(1, None),
        TestNode::new(2, Some(1)),
        TestNode::new(3, None),
    ]);
    tree.filter(|node: &TestNode| node.id == 2);
    assert_eq!(
        test_format(&tree),
        "
            one
            └── two
        "
        .unindent()
    );
}

#[test]
fn d_shows_transitive_parents() {
    let mut tree = Forest::new_forest(vec![
        TestNode::new(1, None),
        TestNode::new(2, Some(1)),
        TestNode::new(3, Some(2)),
    ]);
    tree.filter(|node: &TestNode| node.id == 3);
    assert_eq!(
        test_format(&tree),
        "
            one
            └─┬ two
              └── three
        "
        .unindent()
    );
}

#[test]
fn tree_e_bigger() {
    let mut tree = Forest::new_forest(vec![
        TestNode::new(1, None),
        TestNode::new(2, Some(1)),
        TestNode::new(3, Some(2)),
        TestNode::new(4, None),
    ]);
    tree.filter(|node: &TestNode| node.id == 2);
    assert_eq!(
        test_format(&tree),
        "
            one
            └─┬ two
              └── three
        "
        .unindent()
    );
}

#[test]
fn f_no_unconnected_lines() {
    let mut tree = Forest::new_forest(vec![
        TestNode::new(1, None),
        TestNode::new(2, Some(1)),
        TestNode::new(3, Some(2)),
        TestNode::new(4, Some(1)),
    ]);
    tree.filter(|node: &TestNode| node.id == 2);
    assert_eq!(
        test_format(&tree),
        "
            one
            └─┬ two
              └── three
        "
        .unindent()
    );
}

#[test]
fn a_iterates_through_all_the_nodes() {
    let tree = Forest::new_forest(vec![
        TestNode::new(1, None),
        TestNode::new(2, Some(1)),
        TestNode::new(3, Some(2)),
        TestNode::new(4, Some(1)),
    ]);
    assert_eq!(
        tree.iter().into_iter().map(Node::id).collect::<Vec<u64>>(),
        vec![1, 2, 3, 4]
    );
}

#[test]
fn four_records_sorted_and_unfiltered() {
    let mut tree = Forest::new_forest(vec![
        TestNode::new(4, Some(1)),
        TestNode::new(3, Some(2)),
        TestNode::new(2, Some(1)),
        TestNode::new(1, None),
    ]);
    tree.sort_by(&|a: &TestNode, b: &TestNode| a.id.cmp(&b.id));
    tree.filter(|_: &TestNode| true);
    assert_eq!(
        test_format(&tree),
        "
            one
            ├─┬ two
            │ └── three
            └── four
        "
        .unindent()
    );
}

#[test]
fn three_records_filtered_for_the_innermost() {
    let mut tree = Forest::new_forest(vec![
        TestNode::new(1, None),
        TestNode::new(2, Some(1)),
        TestNode::new(3, Some(2)),
    ]);
    tree.sort_by(&|a: &TestNode, b: &TestNode| a.id.cmp(&b.id));
    tree.filter(|node: &TestNode| node.id == 3);
    assert_eq!(
        tree.iter().into_iter().map(Node::id).collect::<Vec<u64>>(),
        vec![1, 2, 3]
    );
    assert_eq!(
        test_format(&tree),
        "
            one
            └─┬ two
              └── three
        "
        .unindent()
    );
}
