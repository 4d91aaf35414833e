use pyimporttime::graph::{escape_xml, hex_color, label_hue, layout_children, node_label, parent_name};
use pyimporttime::tree::build_tree;

const SIMPLE_LOG: &str = "\
import time: self [us] | cumulative | imported package
import time:       10 |         10 | a
import time:        5 |         15 | b
import time:        3 |          3 |   b.c
";

#[test]
fn self_leaf_takes_parent_name() {
    let tree = build_tree(SIMPLE_LOG).expect("tree");
    assert_eq!(node_label(&tree, 2), ("b.c".to_string(), true));
    assert_eq!(node_label(&tree, 4), ("b".to_string(), true));
    assert_eq!(node_label(&tree, 5), ("a".to_string(), false));
    assert_eq!(parent_name(&tree, 6), "a");
    assert_eq!(parent_name(&tree, 0), "Total");
}

#[test]
fn module_named_self_is_not_self_time() {
    let tree = build_tree("import time: 0 | 5 | self").expect("tree");
    assert_eq!(tree.arena[1].name, "self");
    assert!(!tree.arena[1].is_self);
    assert_eq!(node_label(&tree, 1), ("self".to_string(), false));

    let tree = build_tree("import time: 2 | 5 | self").expect("tree");
    assert!(!tree.arena[1].is_self);
    assert!(tree.arena[2].is_self);
    assert_eq!(node_label(&tree, 1), ("self".to_string(), false));
    assert_eq!(node_label(&tree, 2), ("self".to_string(), true));
}

#[test]
fn children_with_time_are_laid_out() {
    let log = "import time: 0 | 0 |   z\nimport time: 2 | 9 | p\nimport time: 0 | 4 | q\n";
    let tree = build_tree(log).expect("tree");
    assert_eq!(layout_children(&tree, 0), vec![(1, 4), (2, 2)]);
    assert_eq!(layout_children(&tree, 2), vec![(3, 2)]);
    assert_eq!(layout_children(&tree, 1), vec![]);
}

#[test]
fn hue_of_known_labels() {
    assert_eq!(label_hue("a"), 307);
    assert_eq!(label_hue("b.c"), 308);
    assert_eq!(label_hue("pkg.mod"), 22);
    assert_eq!(label_hue("numpy"), 209);
    assert_eq!(label_hue("encodings.utf_8"), 242);
    assert_eq!(label_hue("zzzzzzzzzz"), 314);
    assert_eq!(label_hue("urllib"), 64);
    assert_eq!(label_hue(""), 210);
    assert_eq!(label_hue(".x"), 210);
    assert_eq!(label_hue("b"), label_hue("b.other"));
}

#[test]
fn hex_color_digits() {
    assert_eq!(hex_color(255, 0, 171), "#ff00ab");
    assert_eq!(hex_color(0, 0, 0), "#000000");
    assert_eq!(hex_color(18, 52, 86), "#123456");
}

#[test]
fn escape_xml_replaces_markup() {
    assert_eq!(escape_xml("a&b<c>\"d'"), "a&amp;b&lt;c&gt;&quot;d&apos;");
    assert_eq!(escape_xml("plain.mod"), "plain.mod");
    assert_eq!(escape_xml("&lt;"), "&amp;lt;");
    assert_eq!(escape_xml(""), "");
}
