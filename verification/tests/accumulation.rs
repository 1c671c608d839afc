use std::fmt::Display;
use treetop::tree::{Forest, Node};
use unindent::Unindent;

#[derive(Debug)]
struct TestNode {
    id: u8,
    parent: Option<u8>,
    to_accumulate: i32,
}

impl TestNode {
    fn new(id: u8, parent: Option<u8>, to_accumulate: i32) -> Self {
        TestNode {
            id,
            parent,
            to_accumulate,
        }
    }
}

impl Display for TestNode {
    fn fmt(&self, f: &mut std::fmt::Formatter<'_>) -> std::fmt::Result {
        f.write_str(&self.to_accumulate.to_string())
    }
}

impl Node for TestNode {
    fn spec_id(&self) -> u64 {
        u64::from(self.id)
    }

    fn spec_parent(&self) -> Option<u64> {
        self.parent.map(u64::from)
    }

    fn merged(mut self, other: Self) -> Self {
        self.to_accumulate += other.to_accumulate;
        self
    }

    fn id(&self) -> u64 {
        u64::from(self.id)
    }

    fn parent(&self) -> Option<u64> {
        self.parent.map(u64::from)
    }

    fn accumulate_from(&mut self, other: &Self) {
        self.to_accumulate += other.to_accumulate;
    }

    fn merged_keeps_identity(self, _other: Self) {}
}

fn test_format(forest: &Forest<TestNode>) -> String {
    let table: Vec<String> = forest
        .render_forest_prefixes()
        .into_iter()
        .map(|x| format!("{}{}", x.0, x.1))
        .collect();
    format!("{}\n", table.join("\n"))
}

#[test]
fn a_can_compute_accumulated_values_of_children() {
    let mut tree = Forest::new_forest(vec![
        TestNode::new(1, None, 2),
        TestNode::new(2, Some(1), 3),
    ]);
    tree.filter(|node: &TestNode| node.id == 2);
    assert_eq!(
        test_format(&tree),
        "
            5
            └── 3
        "
        .unindent()
    );
}

#[test]
fn b_accumulates_from_grandchildren() {
    let mut tree = Forest::new_forest(vec![
        TestNode::new(1, None, 2),
        TestNode::new(2, Some(1), 3),
        TestNode::new(3, Some(2), 8),
    ]);
    tree.filter(|node: &TestNode| node.id == 2);
    assert_eq!(
        test_format(&tree),
        "
            13
            └─┬ 11
              └── 8
        "
        .unindent()
    );
}

#[test]
fn c_sorting_happens_after_accumulation() {
    let tree = Forest::new_forest(vec![
        TestNode::new(1, None, 0),
        TestNode::new(2, Some(1), 1),
        TestNode::new(3, Some(2), 4),
        TestNode::new(4, Some(1), 2),
        TestNode::new(5, Some(4), 2),
        TestNode::new(6, Some(1), 3),
        TestNode::new(7, Some(6), 0),
    ]);
    assert_eq!(
        test_format(&tree),
        "
            12
            ├─┬ 5
            │ └── 4
            ├─┬ 4
            │ └── 2
            └─┬ 3
              └── 0
        "
        .unindent()
    );
}
