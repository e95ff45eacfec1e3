use arxml_diff::diff::NodeStatus;
use arxml_diff::render::{compute_max_width, line_values, render_side_by_side, render_tree};
use arxml_diff::DiffNode;

fn node(tag: &str, key: Option<&str>, status: NodeStatus) -> DiffNode {
    DiffNode {
        status,
        tag: tag.to_string(),
        key: key.map(|k| k.to_string()),
        left_fragment: None,
        right_fragment: None,
        children: vec![],
    }
}

fn sample() -> DiffNode {
    let mut root = node("COMPONENTS", None, NodeStatus::Changed);
    root.children.push(node("COMPONENT", Some("CompA"), NodeStatus::Removed));
    root.children.push(node("COMPONENT", Some("CompB"), NodeStatus::Unchanged));
    root.children.push(node("COMPONENT", Some("CompC"), NodeStatus::Added));
    root
}

#[test]
fn unified_rendering_marks_and_indents() {
    let lines = render_tree(&sample());
    assert_eq!(
        lines,
        vec![
            "~ COMPONENTS".to_string(),
            "  - CompA".to_string(),
            "    CompB".to_string(),
            "  + CompC".to_string(),
        ]
    );
}

#[test]
fn max_width_is_the_longest_label() {
    let t = sample();
    assert_eq!(compute_max_width(&t), 10); // COMPONENTS
    let mut small = node("AB", None, NodeStatus::Unchanged);
    small.children.push(node("A", Some("xyz"), NodeStatus::Unchanged));
    assert_eq!(compute_max_width(&small), 3); // xyz
}

#[test]
fn line_values_by_status() {
    let a = node("T", Some("k"), NodeStatus::Added);
    assert_eq!(line_values(&a), ("".to_string(), "k".to_string()));
    let r = node("T", Some("k"), NodeStatus::Removed);
    assert_eq!(line_values(&r), ("k".to_string(), "".to_string()));
    let u = node("T", None, NodeStatus::Unchanged);
    assert_eq!(line_values(&u), ("T".to_string(), "T".to_string()));
    let c = node("T", Some("k"), NodeStatus::Changed);
    assert_eq!(line_values(&c), ("k".to_string(), "k".to_string()));
}

#[test]
fn line_values_of_an_unkeyed_change_borrow_from_children() {
    let mut c = node("WRAP", None, NodeStatus::Changed);
    c.children.push(node("N", Some("fresh"), NodeStatus::Added));
    c.children.push(node("N", Some("stale"), NodeStatus::Removed));
    // Left side: first non-added child; right side: first non-removed child.
    assert_eq!(line_values(&c), ("stale".to_string(), "fresh".to_string()));

    let empty = node("WRAP", None, NodeStatus::Changed);
    assert_eq!(line_values(&empty), ("WRAP".to_string(), "WRAP".to_string()));
}

#[test]
fn side_by_side_has_header_and_aligned_columns() {
    let mut root = node("P", Some("P"), NodeStatus::Changed);
    root.children.push(node("N", Some("gone"), NodeStatus::Removed));
    root.children.push(node("N", Some("new"), NodeStatus::Added));
    let lines = render_side_by_side(&root);

    // width = min(40, longest label) + 4 = 4 + 4 = 8; cells pad to width + 2.
    assert_eq!(lines[0], format!("{:<10} | RIGHT", "LEFT"));
    assert_eq!(lines[1], format!("{}-+-{}", "-".repeat(10), "-".repeat(20)));
    assert_eq!(lines[2], format!("{:<10} ~ {}", "P", "P"));
    assert_eq!(lines[3], format!("{:<10}   {}", "  gone", ""));
    assert_eq!(lines[4], format!("{:<10}   {}", "", "  new"));
    assert_eq!(lines.len(), 5);
}

#[test]
fn side_by_side_skips_an_unkeyed_wrapper_over_one_keyed_child() {
    // The wrapper repeats its only child's key on both sides, so only the
    // child's row appears.
    let mut wrap = node("WRAP", None, NodeStatus::Unchanged);
    let child = node("N", Some("WRAP"), NodeStatus::Unchanged);
    // label of the wrapper is its tag "WRAP", equal to the child's key.
    wrap.children.push(child);
    let lines = render_side_by_side(&wrap);
    assert_eq!(lines.len(), 3);
    // width = min(40, 4) + 4 = 8; cells pad to 10.
    assert_eq!(lines[2], format!("{:<10}   {}", "WRAP", "WRAP"));
}
