use std::cmp::Ordering;
use std::collections::HashMap;
use treetop::tree::{Forest, Node, Tree};

#[derive(Debug, Clone, PartialEq)]
struct Record {
    id: u64,
    parent: Option<u64>,
    weight: u64,
    label: &'static str,
}

fn record(id: u64, parent: Option<u64>, weight: u64, label: &'static str) -> Record {
    Record {
        id,
        parent,
        weight,
        label,
    }
}

impl Node for Record {
    fn spec_id(&self) -> u64 {
        self.id
    }

    fn spec_parent(&self) -> Option<u64> {
        self.parent
    }

    fn merged(mut self, other: Self) -> Self {
        self.weight += other.weight;
        self
    }

    fn id(&self) -> u64 {
        self.id
    }

    fn parent(&self) -> Option<u64> {
        self.parent
    }

    fn accumulate_from(&mut self, other: &Self) {
        self.weight += other.weight;
    }

    fn merged_keeps_identity(self, _other: Self) {}
}

fn lines(forest: &Forest<Record>) -> Vec<String> {
    forest
        .render_forest_prefixes()
        .into_iter()
        .map(|line| format!("{}{}", line.0, line.1.label))
        .collect()
}

fn ids(forest: &Forest<Record>) -> Vec<u64> {
    forest.iter().into_iter().map(|node| node.id).collect()
}

fn weights(forest: &Forest<Record>) -> Vec<u64> {
    forest.iter().into_iter().map(|node| node.weight).collect()
}

fn sample() -> Vec<Record> {
    vec![
        record(4, Some(1), 1, "d"),
        record(1, None, 1, "a"),
        record(3, Some(2), 1, "c"),
        record(6, None, 1, "f"),
        record(2, Some(1), 1, "b"),
        record(5, Some(4), 1, "e"),
        record(7, Some(6), 1, "g"),
    ]
}

#[test]
fn an_empty_forest_has_no_lines() {
    let forest: Forest<Record> = Forest::empty();
    assert!(lines(&forest).is_empty());
    assert!(forest.iter().is_empty());
    let forest: Forest<Record> = Forest::new_forest(Vec::new());
    assert!(lines(&forest).is_empty());
}

#[test]
fn every_identifier_is_in_the_forest_once() {
    let forest = Forest::new_forest(sample());
    let mut found = ids(&forest);
    assert_eq!(found, vec![1, 4, 5, 2, 3, 6, 7]);
    found.sort();
    assert_eq!(found, vec![1, 2, 3, 4, 5, 6, 7]);
    for id in 1..=7 {
        assert!(forest.contains_id(id));
    }
    assert!(!forest.contains_id(0));
    assert!(!forest.contains_id(8));
}

#[test]
fn roots_and_children_keep_the_order_of_the_records() {
    let forest = Forest::new_forest(sample());
    assert_eq!(
        lines(&forest),
        vec!["a", "├─┬ d", "│ └── e", "└─┬ b", "  └── c", "f", "└── g"]
    );
    assert_eq!(weights(&forest), vec![5, 2, 1, 2, 1, 2, 1]);
}

#[test]
fn records_that_descend_from_no_root_are_left_out() {
    let forest = Forest::new_forest(vec![
        record(1, None, 1, "root"),
        record(2, Some(9), 10, "orphan"),
        record(3, Some(2), 100, "child of the orphan"),
        record(4, Some(5), 1000, "ring"),
        record(5, Some(4), 10000, "ring"),
        record(6, Some(6), 100000, "its own parent"),
        record(7, Some(1), 1000000, "child"),
    ]);
    assert_eq!(ids(&forest), vec![1, 7]);
    assert_eq!(weights(&forest), vec![1000001, 1000000]);
    assert_eq!(lines(&forest), vec!["root", "└── child"]);
}

#[test]
fn the_trees_are_built_from_an_index() {
    let mut node_map: HashMap<u64, Record> = HashMap::new();
    node_map.insert(1, record(1, None, 1, "a"));
    node_map.insert(2, record(2, Some(1), 1, "b"));
    node_map.insert(3, record(3, Some(1), 1, "c"));
    node_map.insert(4, record(4, Some(3), 1, "d"));
    node_map.insert(5, record(5, None, 1, "e"));
    node_map.insert(6, record(6, Some(9), 1, "f"));
    let mut children_map: HashMap<u64, Vec<u64>> = HashMap::new();
    children_map.insert(1, vec![3, 2]);
    children_map.insert(3, vec![4]);
    children_map.insert(9, vec![6]);
    let forest = Forest::mk_forest(&mut node_map, &mut children_map, vec![1]);
    assert_eq!(lines(&forest), vec!["a", "├─┬ c", "│ └── d", "└── b"]);
    assert_eq!(weights(&forest), vec![1, 1, 1, 1]);
    let mut left: Vec<u64> = node_map.keys().copied().collect();
    left.sort();
    assert_eq!(left, vec![5, 6]);
    let left: Vec<u64> = children_map.keys().copied().collect();
    assert_eq!(left, vec![9]);
    let forest = Forest::mk_forest(&mut node_map, &mut children_map, Vec::new());
    assert!(forest.iter().is_empty());
    assert_eq!(node_map.len(), 2);
}

#[test]
fn rolling_up_twice_adds_the_children_again() {
    let mut forest = Forest::new_forest(vec![
        record(1, None, 2, "a"),
        record(2, Some(1), 3, "b"),
        record(3, Some(2), 8, "c"),
    ]);
    assert_eq!(weights(&forest), vec![13, 11, 8]);
    forest.compute_accumulate();
    assert_eq!(weights(&forest), vec![13 + 11 + 8, 11 + 8, 8]);
}

#[test]
fn sorting_orders_every_level() {
    let mut forest = Forest::new_forest(sample());
    forest.sort_by(&|a: &Record, b: &Record| a.id.cmp(&b.id));
    assert_eq!(ids(&forest), vec![1, 2, 3, 4, 5, 6, 7]);
    assert_eq!(
        lines(&forest),
        vec!["a", "├─┬ b", "│ └── c", "└─┬ d", "  └── e", "f", "└── g"]
    );
    forest.sort_by(&|a: &Record, b: &Record| b.id.cmp(&a.id));
    assert_eq!(ids(&forest), vec![6, 7, 1, 4, 5, 2, 3]);
}

#[test]
fn sorting_twice_gives_the_same_forest() {
    let by_weight = |a: &Record, b: &Record| b.weight.cmp(&a.weight).then(a.id.cmp(&b.id));
    let mut first = Forest::new_forest(sample());
    first.sort_by(&by_weight);
    let mut second = Forest::new_forest(sample());
    second.sort_by(&by_weight);
    assert_eq!(ids(&first), ids(&second));
    assert_eq!(ids(&first), vec![1, 2, 3, 4, 5, 6, 7]);
    first.sort_by(&by_weight);
    assert_eq!(ids(&first), ids(&second));
}

#[test]
fn siblings_that_are_equal_keep_their_order() {
    let records = vec![
        record(5, None, 1, "five"),
        record(3, None, 2, "three"),
        record(9, None, 1, "nine"),
        record(1, None, 2, "one"),
        record(7, None, 1, "seven"),
    ];
    let mut forest = Forest::new_forest(records.clone());
    forest.sort_by(&|a: &Record, b: &Record| a.weight.cmp(&b.weight));
    assert_eq!(ids(&forest), vec![5, 9, 7, 3, 1]);
    let mut forest = Forest::new_forest(records.clone());
    forest.sort_by(&|_: &Record, _: &Record| Ordering::Equal);
    assert_eq!(ids(&forest), vec![5, 3, 9, 1, 7]);
    let mut forest = Forest::new_forest(records);
    forest.sort_by(&|a: &Record, b: &Record| b.weight.cmp(&a.weight));
    assert_eq!(ids(&forest), vec![3, 1, 5, 9, 7]);
}

#[test]
fn a_match_stays_with_its_descendants_and_its_ancestors() {
    let mut forest = Forest::new_forest(sample());
    forest.filter(|node: &Record| node.id == 4);
    assert_eq!(ids(&forest), vec![1, 4, 5]);
    assert_eq!(lines(&forest), vec!["a", "└─┬ d", "  └── e"]);
    let mut forest = Forest::new_forest(sample());
    forest.filter(|node: &Record| node.id == 3 || node.id == 7);
    assert_eq!(ids(&forest), vec![1, 2, 3, 6, 7]);
    assert_eq!(lines(&forest), vec!["a", "└─┬ b", "  └── c", "f", "└── g"]);
}

#[test]
fn a_filter_that_everything_passes_changes_nothing() {
    let mut forest = Forest::new_forest(sample());
    let before = lines(&forest);
    forest.filter(|_: &Record| true);
    assert_eq!(lines(&forest), before);
    assert_eq!(weights(&forest), vec![5, 2, 1, 2, 1, 2, 1]);
}

#[test]
fn a_filter_that_nothing_passes_leaves_nothing() {
    let mut forest = Forest::new_forest(sample());
    forest.filter(|_: &Record| false);
    assert!(lines(&forest).is_empty());
    assert!(forest.0.is_empty());
}

#[test]
fn the_helper_tells_whether_anything_stays() {
    let mut forest = Forest::new_forest(sample());
    assert!(forest.filter_helper(&|node: &Record| node.id == 7, false));
    assert_eq!(ids(&forest), vec![6, 7]);
    assert!(!forest.filter_helper(&|node: &Record| node.id == 1, false));
    assert!(forest.0.is_empty());
    let mut forest = Forest::new_forest(sample());
    assert!(forest.filter_helper(&|_: &Record| false, true));
    assert_eq!(ids(&forest), vec![1, 4, 5, 2, 3, 6, 7]);
    let mut forest: Forest<Record> = Forest::empty();
    assert!(!forest.filter_helper(&|_: &Record| true, true));
}

#[test]
fn a_hidden_sibling_does_not_keep_a_branch_open() {
    let records = vec![
        record(1, None, 1, "a"),
        record(2, Some(1), 1, "b"),
        record(3, Some(1), 1, "c"),
        record(4, Some(1), 1, "d"),
    ];
    let mut forest = Forest::new_forest(records.clone());
    forest.filter(|node: &Record| node.id == 2 || node.id == 3);
    assert_eq!(lines(&forest), vec!["a", "├── b", "└── c"]);
    let mut forest = Forest::new_forest(records.clone());
    forest.filter(|node: &Record| node.id == 2);
    assert_eq!(lines(&forest), vec!["a", "└── b"]);
    let mut forest = Forest::new_forest(records);
    forest.filter(|node: &Record| node.id == 3);
    assert_eq!(lines(&forest), vec!["a", "└── c"]);
}

#[test]
fn the_helper_continues_the_prefixes_it_is_given() {
    let forest = Forest::new_forest(vec![
        record(1, None, 1, "a"),
        record(2, Some(1), 1, "b"),
        record(3, None, 1, "c"),
    ]);
    let mut prefixes = vec!["│ ", "  "];
    let mut acc = Vec::new();
    forest.render_forest_prefixes_helper(false, &mut prefixes, &mut acc);
    let shown: Vec<String> = acc
        .iter()
        .map(|line| format!("{}{}", line.0, line.1.label))
        .collect();
    assert_eq!(
        shown,
        vec!["│   ├─┬ a", "│   │ └── b", "│   └── c"]
    );
    assert_eq!(prefixes, vec!["│ ", "  "]);
    let mut acc = Vec::new();
    forest.render_forest_prefixes_helper(true, &mut prefixes, &mut acc);
    let shown: Vec<String> = acc
        .iter()
        .map(|line| format!("{}{}", line.0, line.1.label))
        .collect();
    assert_eq!(shown, vec!["│   a", "│   └── b", "│   c"]);
    assert_eq!(prefixes, vec!["│ ", "  "]);
}

#[test]
fn a_forest_can_be_put_together_by_hand() {
    let forest = Forest(vec![Tree {
        node: record(1, None, 1, "a"),
        children: Forest(vec![
            Tree {
                node: record(2, Some(1), 1, "b"),
                children: Forest::empty(),
            },
            Tree {
                node: record(3, Some(1), 1, "c"),
                children: Forest::empty(),
            },
        ]),
    }]);
    assert_eq!(lines(&forest), vec!["a", "├── b", "└── c"]);
    assert_eq!(ids(&forest), vec![1, 2, 3]);
}
