use arxml_diff::browser::{
    build_rows, export_file_name, node_by_path, path_to_string, ExpansionSet, Session, ViewMode,
};
use arxml_diff::diff::NodeStatus;
use arxml_diff::DiffNode;

fn leaf(tag: &str, key: Option<&str>, status: NodeStatus) -> DiffNode {
    DiffNode {
        status,
        tag: tag.to_string(),
        key: key.map(|k| k.to_string()),
        left_fragment: None,
        right_fragment: None,
        children: vec![],
    }
}

/// root -> c1 -> g1, root -> c2
fn sample_tree() -> DiffNode {
    let g1 = leaf("G1", Some("g1"), NodeStatus::Unchanged);
    let mut c1 = leaf("C1", Some("c1"), NodeStatus::Changed);
    c1.children.push(g1);
    let c2 = leaf("C2", Some("c2"), NodeStatus::Added);
    let mut root = leaf("ROOT", None, NodeStatus::Changed);
    root.children.push(c1);
    root.children.push(c2);
    root
}

#[test]
fn build_rows_descends_only_into_expanded_paths() {
    let root = sample_tree();
    let mut ex = ExpansionSet::new();
    let rows = build_rows(&root, &ex);
    assert_eq!(rows.len(), 1);
    assert_eq!(rows[0].label, "ROOT");
    assert_eq!(rows[0].indent, 0);
    assert!(rows[0].has_children);

    ex.insert(vec![0]);
    let rows = build_rows(&root, &ex);
    assert_eq!(rows.len(), 3);
    assert_eq!(rows[0].label, "ROOT");
    assert_eq!(rows[1].label, "c1");
    assert_eq!(rows[1].indent, 1);
    assert_eq!(rows[1].path, vec![0, 0]);
    assert_eq!(rows[2].label, "c2");
    assert_eq!(rows[2].path, vec![0, 1]);

    ex.insert(vec![0, 0]);
    let rows = build_rows(&root, &ex);
    assert_eq!(rows.len(), 4);
    assert_eq!(rows[2].label, "g1");
    assert_eq!(rows[2].indent, 2);
    assert_eq!(rows[2].path, vec![0, 0, 0]);
    assert!(!rows[2].has_children);

    ex.remove(&vec![0]);
    let rows = build_rows(&root, &ex);
    // The grandchild stays hidden: its parent's row is no longer reachable.
    assert_eq!(rows.len(), 1);
}

#[test]
fn expansion_set_membership() {
    let mut ex = ExpansionSet::new();
    assert!(!ex.contains_path(&vec![0]));
    ex.insert(vec![0]);
    ex.insert(vec![0]);
    assert!(ex.contains_path(&vec![0]));
    assert!(!ex.contains_path(&vec![0, 1]));
    ex.insert(vec![0, 1]);
    assert!(ex.contains_path(&vec![0, 1]));
    ex.remove(&vec![0]);
    assert!(!ex.contains_path(&vec![0]));
    assert!(ex.contains_path(&vec![0, 1]));
}

#[test]
fn row_count_invariant_under_expand_collapse_events() {
    let root = sample_tree();
    let mut s = Session::new();

    // Only the root is expanded at the start.
    let rows = build_rows(&root, &s.expanded);
    assert_eq!(rows.len(), 3);
    assert_eq!(s.cursor, 0);

    // Move onto c1 and expand it.
    s.move_down(&root);
    assert_eq!(s.cursor, 1);
    s.toggle_expand(&root);
    let rows = build_rows(&root, &s.expanded);
    assert_eq!(rows.len(), 4);
    assert!(s.cursor < rows.len());

    // The cursor cannot leave the row list downward.
    s.move_down(&root);
    s.move_down(&root);
    s.move_down(&root);
    s.move_down(&root);
    assert_eq!(s.cursor, 3);

    // A leaf row toggles nothing.
    s.toggle_expand(&root);
    let rows = build_rows(&root, &s.expanded);
    assert_eq!(rows.len(), 4);
    assert_eq!(s.cursor, 3);

    // Collapsing the root clamps the cursor to the only row left.
    s.move_up(&root);
    s.move_up(&root);
    s.move_up(&root);
    assert_eq!(s.cursor, 0);
    s.toggle_expand(&root);
    let rows = build_rows(&root, &s.expanded);
    assert_eq!(rows.len(), 1);
    assert_eq!(s.cursor, 0);

    // Expanding the root again restores all four rows: the nested
    // expansion entry for c1 survived the collapse.
    s.toggle_expand(&root);
    let rows = build_rows(&root, &s.expanded);
    assert_eq!(rows.len(), 4);
    assert!(s.cursor < rows.len());
}

#[test]
fn cursor_stops_at_the_first_row() {
    let root = sample_tree();
    let mut s = Session::new();
    s.move_up(&root);
    assert_eq!(s.cursor, 0);
    s.move_down(&root);
    s.move_up(&root);
    s.move_up(&root);
    assert_eq!(s.cursor, 0);
}

#[test]
fn view_and_raw_toggles_flip() {
    let mut s = Session::new();
    assert_eq!(s.mode, ViewMode::Unified);
    s.toggle_view();
    assert_eq!(s.mode, ViewMode::SideBySide);
    s.toggle_view();
    assert_eq!(s.mode, ViewMode::Unified);
    assert!(!s.show_raw);
    s.toggle_raw();
    assert!(s.show_raw);
    s.toggle_raw();
    assert!(!s.show_raw);
}

#[test]
fn status_note_expires_after_three_seconds() {
    let mut s = Session::new();
    assert_eq!(s.visible_note(100), None);
    s.report_export(true, "out.xml", 100);
    assert_eq!(s.visible_note(100).as_deref(), Some("Exported to out.xml"));
    assert_eq!(s.visible_note(102).as_deref(), Some("Exported to out.xml"));
    assert_eq!(s.visible_note(103), None);
    assert_eq!(s.visible_note(99), None);
    s.report_export(false, "out.xml", 200);
    assert_eq!(s.visible_note(201).as_deref(), Some("Failed to write out.xml"));
}

#[test]
fn selected_path_follows_the_cursor() {
    let root = sample_tree();
    let mut s = Session::new();
    assert_eq!(s.selected_path(&root), vec![0]);
    s.move_down(&root);
    assert_eq!(s.selected_path(&root), vec![0, 0]);
    s.move_down(&root);
    assert_eq!(s.selected_path(&root), vec![0, 1]);
}

#[test]
fn node_resolution_walks_child_indices() {
    let root = sample_tree();
    let r = node_by_path(&root, &vec![0]).expect("root");
    assert_eq!(r.tag, "ROOT");
    let c2 = node_by_path(&root, &vec![0, 1]).expect("c2");
    assert_eq!(c2.key.as_deref(), Some("c2"));
    let g1 = node_by_path(&root, &vec![0, 0, 0]).expect("g1");
    assert_eq!(g1.key.as_deref(), Some("g1"));
    assert!(node_by_path(&root, &vec![0, 5]).is_none());
    assert!(node_by_path(&root, &vec![0, 0, 0, 0]).is_none());
}

#[test]
fn paths_render_as_dot_joined_indices() {
    assert_eq!(path_to_string(&vec![0]), "0");
    assert_eq!(path_to_string(&vec![0, 2, 10]), "0.2.10");
    assert_eq!(path_to_string(&vec![1234]), "1234");
}

#[test]
fn export_file_names_are_deterministic() {
    assert_eq!(export_file_name("ECU", 1710000000), "arxml-ECU-1710000000.xml");
    assert_eq!(export_file_name("X", 0), "arxml-X-0.xml");
}
