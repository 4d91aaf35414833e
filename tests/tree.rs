use pyimporttime::parser::ImportTimeError;
use pyimporttime::tree::{build_tree, build_tree_from_records};

const SIMPLE_LOG: &str = "\
import time: self [us] | cumulative | imported package
import time:       10 |         10 | a
import time:        5 |         15 | b
import time:        3 |          3 |   b.c
";

#[test]
fn main_build_tree_includes_self_nodes() {
    let tree = build_tree(SIMPLE_LOG).expect("tree");
    let names: Vec<&str> = tree.arena.iter().map(|node| node.name.as_str()).collect();
    assert!(names.contains(&"self"));
    assert!(names.contains(&"a"));
    assert!(names.contains(&"b"));
}

#[test]
fn tree_build_tree_includes_self_nodes() {
    let log = "\
import time: self [us] | cumulative | imported package\n\
import time:       10 |         10 | a\n\
import time:        5 |         15 | b\n\
import time:        3 |          3 |   b.c\n";
    let tree = build_tree(log).expect("tree");
    let names: Vec<&str> = tree.arena.iter().map(|node| node.name.as_str()).collect();
    assert!(names.contains(&"self"));
    assert!(names.contains(&"a"));
    assert!(names.contains(&"b"));
}

#[test]
fn build_tree_handles_postorder_logs() {
    let log = "\
import time: self [us] | cumulative | imported package\n\
import time:        1 |          1 |   child\n\
import time:        2 |          3 | parent\n";
    let tree = build_tree(log).expect("tree");
    let parent_index = tree
        .arena
        .iter()
        .position(|node| node.name == "parent")
        .expect("parent");
    let child_index = tree
        .arena
        .iter()
        .position(|node| node.name == "child")
        .expect("child");
    assert!(tree.arena[parent_index].children.contains(&child_index));
}

#[test]
fn postorder_tree_totals() {
    let log = "\
import time:        1 |          1 |   child\n\
import time:        2 |          3 | parent\n";
    let tree = build_tree(log).expect("tree");
    let names: Vec<&str> = tree.arena.iter().map(|node| node.name.as_str()).collect();
    assert_eq!(names, vec!["Total", "parent", "self", "child", "self"]);
    assert_eq!(tree.arena[1].children, vec![2, 3]);
    assert_eq!(tree.arena[3].children, vec![4]);
    assert_eq!(tree.arena[3].parent, Some(1));
    assert_eq!(tree.totals, vec![3, 3, 2, 1, 1]);
    assert_eq!(tree.total_us(), 3);
    assert_eq!(tree.sum_children(1), 3);
}

#[test]
fn scenario_tree_follows_reversed_records() {
    let tree = build_tree(SIMPLE_LOG).expect("tree");
    let names: Vec<&str> = tree.arena.iter().map(|node| node.name.as_str()).collect();
    assert_eq!(names, vec!["Total", "b.c", "self", "b", "self", "a", "self"]);
    assert_eq!(tree.arena[0].children, vec![1, 3, 5]);
    assert_eq!(tree.arena[0].parent, None);
    assert_eq!(tree.totals, vec![18, 3, 3, 5, 5, 10, 10]);
    assert_eq!(tree.total_us(), 18);
}

#[test]
fn leaf_times_sum_to_total() {
    let log = "\
import time:        4 |          4 |     d\n\
import time:        0 |          7 |   c\n\
import time:        2 |         13 | b\n\
import time:        0 |          6 | e\n";
    let tree = build_tree(log).expect("tree");
    let leaf_sum: u64 = tree
        .arena
        .iter()
        .filter(|node| node.children.is_empty())
        .map(|node| node.cumulative_us)
        .sum();
    assert_eq!(tree.total_us(), leaf_sum);
    assert_eq!(tree.total_us(), 12);
}

#[test]
fn zero_self_time_has_no_self_leaf() {
    let tree = build_tree("import time: 0 | 5 | only").expect("tree");
    assert_eq!(tree.arena.len(), 2);
    assert!(tree.arena[1].children.is_empty());
    assert_eq!(tree.total_us(), 5);
}

#[test]
fn depth_jump_attaches_to_nearest_ancestor() {
    let records = pyimporttime::parser::parse_import_time(
        "import time: 0 | 1 | top\nimport time: 0 | 2 |       deep\n",
    )
    .expect("records");
    let tree = build_tree_from_records(&records).expect("tree");
    assert_eq!(tree.arena[2].parent, Some(1));
    assert_eq!(tree.totals[0], 2);
}

#[test]
fn overflowing_totals_are_an_error() {
    let log = "import time: 0 | 18446744073709551615 | a\nimport time: 0 | 1 | b\n";
    assert_eq!(build_tree(log).unwrap_err(), ImportTimeError::TotalOverflow);
    let fits = "import time: 0 | 18446744073709551614 | a\nimport time: 0 | 1 | b\n";
    assert_eq!(build_tree(fits).expect("tree").total_us(), u64::MAX);
}

#[test]
fn build_errors_come_from_parsing() {
    assert_eq!(build_tree("import time: x | 1 | a").unwrap_err(), ImportTimeError::MalformedLine(1));
    assert_eq!(
        build_tree("import time: self [us] | cumulative | imported package").unwrap_err(),
        ImportTimeError::NoRecords
    );
}

#[test]
fn building_twice_gives_the_same_tree() {
    let one = build_tree(SIMPLE_LOG).expect("tree");
    let two = build_tree(SIMPLE_LOG).expect("tree");
    assert_eq!(format!("{:?}", one), format!("{:?}", two));
}
