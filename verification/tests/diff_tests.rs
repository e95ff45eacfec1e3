use arxml_diff::diff::{compute_tree_diff, diff_elements, NodeStatus};
use arxml_diff::element::{fragment_of, key_of};
use arxml_diff::parse::TreeBuilder;
use arxml_diff::{Attr, DiffNode, Element};

fn named(tag: &str, short_name: &str) -> Element {
    let mut e = Element::new(tag.to_string());
    e.short_name = Some(short_name.to_string());
    e
}

fn feed(b: &mut TreeBuilder, tag: &str, short_name: &str) {
    b.start_element(tag.to_string(), vec![]);
    b.start_element("SHORT-NAME".to_string(), vec![]);
    b.text_chunk(short_name);
    assert!(b.end_element().is_none());
}

/// Builds the sample document with the given component names, as the
/// streaming reader would: ARXML > ECU (MyEcu) > COMPONENTS > components.
fn sample_doc(comps: &[&str]) -> Element {
    let mut b = TreeBuilder::new();
    b.start_element("ARXML".to_string(), vec![]);
    feed(&mut b, "ECU", "MyEcu");
    b.start_element("COMPONENTS".to_string(), vec![]);
    for c in comps {
        feed(&mut b, "COMPONENT", c);
        assert!(b.end_element().is_none()); // close COMPONENT
    }
    assert!(b.end_element().is_none()); // close COMPONENTS
    assert!(b.end_element().is_none()); // close ECU
    b.end_element().expect("root")
}

#[test]
fn sibling_diff_detects_add_remove_common() {
    let left = sample_doc(&["CompA", "CompB"]);
    let right = sample_doc(&["CompB", "CompC"]);

    let ecu_l = left.children.iter().find(|c| c.tag.eq_ignore_ascii_case("ECU")).expect("ECU");
    let comps_l =
        ecu_l.children.iter().find(|c| c.tag.eq_ignore_ascii_case("COMPONENTS")).expect(
            "COMPONENTS",
        );

    let ecu_r = right.children.iter().find(|c| c.tag.eq_ignore_ascii_case("ECU")).expect("ECU");
    let comps_r =
        ecu_r.children.iter().find(|c| c.tag.eq_ignore_ascii_case("COMPONENTS")).expect(
            "COMPONENTS",
        );

    let diff = compute_tree_diff(comps_l, comps_r);

    assert_eq!(diff.children.len(), 3);
    assert_eq!(diff.children[0].status, NodeStatus::Removed);
    assert_eq!(diff.children[0].key.as_deref(), Some("CompA"));
    assert_eq!(diff.children[1].status, NodeStatus::Unchanged);
    assert_eq!(diff.children[1].key.as_deref(), Some("CompB"));
    assert_eq!(diff.children[2].status, NodeStatus::Added);
    assert_eq!(diff.children[2].key.as_deref(), Some("CompC"));
}

#[test]
fn alignment_on_keyed_siblings() {
    // Left keys [A, B], right keys [B, C]: exactly Removed A, Unchanged B,
    // Added C, in that order.
    let mut l = Element::new("P".to_string());
    l.children.push(named("N", "A"));
    l.children.push(named("N", "B"));
    let mut r = Element::new("P".to_string());
    r.children.push(named("N", "B"));
    r.children.push(named("N", "C"));

    let d = compute_tree_diff(&l, &r);
    assert_eq!(d.children.len(), 3);
    assert_eq!(d.children[0].status, NodeStatus::Removed);
    assert_eq!(d.children[0].key.as_deref(), Some("A"));
    assert_eq!(d.children[1].status, NodeStatus::Unchanged);
    assert_eq!(d.children[1].key.as_deref(), Some("B"));
    assert_eq!(d.children[2].status, NodeStatus::Added);
    assert_eq!(d.children[2].key.as_deref(), Some("C"));
    // The parent aligns, and one non-unchanged child makes it Changed.
    assert_eq!(d.status, NodeStatus::Changed);
}

fn assert_all_unchanged(d: &DiffNode) {
    assert_eq!(d.status, NodeStatus::Unchanged);
    for c in &d.children {
        assert_all_unchanged(c);
    }
}

#[test]
fn diff_of_tree_with_itself_is_unchanged_everywhere() {
    let x = sample_doc(&["CompA", "CompB"]);
    let y = sample_doc(&["CompA", "CompB"]);
    let d = compute_tree_diff(&x, &y);
    assert_all_unchanged(&d);
}

fn assert_mirrored(l: &DiffNode, r: &DiffNode) {
    assert_eq!(l.status, NodeStatus::Removed);
    assert_eq!(r.status, NodeStatus::Added);
    assert_eq!(l.tag, r.tag);
    assert_eq!(l.key, r.key);
    assert_eq!(l.children.len(), r.children.len());
    for (lc, rc) in l.children.iter().zip(r.children.iter()) {
        assert_mirrored(lc, rc);
    }
}

#[test]
fn absence_symmetry_on_a_sample_tree() {
    let x = sample_doc(&["CompA", "CompB"]);
    let gone = diff_elements(Some(&x), None);
    let born = diff_elements(None, Some(&x));
    assert_mirrored(&gone, &born);
}

#[test]
fn attribute_change_yields_changed_without_structural_children() {
    let mut l = named("COMPONENT", "CompB");
    l.attributes.push(Attr { name: "version".to_string(), value: "1".to_string() });
    l.children.push(named("PORT", "p1"));
    let mut r = named("COMPONENT", "CompB");
    r.attributes.push(Attr { name: "version".to_string(), value: "2".to_string() });
    r.children.push(named("PORT", "p1"));

    let d = compute_tree_diff(&l, &r);
    assert_eq!(d.status, NodeStatus::Changed);
    assert_eq!(d.children.len(), 1);
    for c in &d.children {
        assert!(c.status != NodeStatus::Added);
        assert!(c.status != NodeStatus::Removed);
        assert_eq!(c.status, NodeStatus::Unchanged);
    }
}

#[test]
fn attribute_order_does_not_matter() {
    let mut l = named("C", "K");
    l.attributes.push(Attr { name: "a".to_string(), value: "1".to_string() });
    l.attributes.push(Attr { name: "b".to_string(), value: "2".to_string() });
    let mut r = named("C", "K");
    r.attributes.push(Attr { name: "b".to_string(), value: "2".to_string() });
    r.attributes.push(Attr { name: "a".to_string(), value: "1".to_string() });
    let d = compute_tree_diff(&l, &r);
    assert_eq!(d.status, NodeStatus::Unchanged);
}

#[test]
fn mismatched_roots_become_replacement() {
    let l = named("OLD", "x");
    let r = named("NEW", "y");
    let d = compute_tree_diff(&l, &r);
    assert_eq!(d.status, NodeStatus::Changed);
    assert_eq!(d.tag, "OLD -> NEW");
    assert_eq!(d.key, None);
    assert_eq!(d.children.len(), 2);
    assert_eq!(d.children[0].status, NodeStatus::Removed);
    assert_eq!(d.children[0].key.as_deref(), Some("x"));
    assert_eq!(d.children[1].status, NodeStatus::Added);
    assert_eq!(d.children[1].key.as_deref(), Some("y"));
}

#[test]
fn identity_prefers_short_name_then_uuid_then_tag() {
    let mut e = Element::new("TAG".to_string());
    assert_eq!(key_of(&e), "TAG");
    e.uuid = Some("u-1".to_string());
    assert_eq!(key_of(&e), "u-1");
    e.short_name = Some("Name".to_string());
    assert_eq!(key_of(&e), "Name");
}

#[test]
fn identity_ignores_children_and_their_order() {
    let mut a = named("T", "N");
    a.children.push(named("X", "1"));
    a.children.push(named("Y", "2"));
    let mut b = named("T", "N");
    b.children.push(named("Y", "2"));
    b.children.push(named("X", "1"));
    assert_eq!(key_of(&a), key_of(&b));
}

#[test]
fn fragments_capture_the_markup_of_both_sides() {
    let mut l = Element::new("X".to_string());
    l.attributes.push(Attr { name: "a".to_string(), value: "1".to_string() });
    l.text = Some("t".to_string());
    let mut r = Element::new("X".to_string());
    r.attributes.push(Attr { name: "a".to_string(), value: "2".to_string() });
    r.text = Some("t".to_string());
    assert_eq!(fragment_of(&l), "<X a=\"1\">t</X>");

    let d = compute_tree_diff(&l, &r);
    assert_eq!(d.left_fragment.as_deref(), Some("<X a=\"1\">t</X>"));
    assert_eq!(d.right_fragment.as_deref(), Some("<X a=\"2\">t</X>"));

    let gone = diff_elements(Some(&l), None);
    assert_eq!(gone.left_fragment.as_deref(), Some("<X a=\"1\">t</X>"));
    assert_eq!(gone.right_fragment, None);
}

#[test]
fn text_change_marks_the_node_changed() {
    let mut l = named("C", "K");
    l.text = Some("old words".to_string());
    let mut r = named("C", "K");
    r.text = Some("new words".to_string());
    let d = compute_tree_diff(&l, &r);
    assert_eq!(d.status, NodeStatus::Changed);
    assert_eq!(d.children.len(), 0);
}

#[test]
fn change_deep_below_propagates_to_every_ancestor() {
    let mut deep_l = named("LEAF", "leaf");
    deep_l.text = Some("old".to_string());
    let mut deep_r = named("LEAF", "leaf");
    deep_r.text = Some("new".to_string());

    let mut mid_l = named("MID", "mid");
    mid_l.children.push(deep_l);
    let mut mid_r = named("MID", "mid");
    mid_r.children.push(deep_r);

    let mut top_l = named("TOP", "top");
    top_l.children.push(mid_l);
    let mut top_r = named("TOP", "top");
    top_r.children.push(mid_r);

    let d = compute_tree_diff(&top_l, &top_r);
    assert_eq!(d.status, NodeStatus::Changed);
    assert_eq!(d.children.len(), 1);
    assert_eq!(d.children[0].status, NodeStatus::Changed);
    assert_eq!(d.children[0].children.len(), 1);
    assert_eq!(d.children[0].children[0].status, NodeStatus::Changed);
}

#[test]
fn equal_keys_with_different_tags_do_not_align() {
    let l = named("KIND-A", "same");
    let r = named("KIND-B", "same");
    let d = compute_tree_diff(&l, &r);
    assert_eq!(d.status, NodeStatus::Changed);
    assert_eq!(d.tag, "KIND-A -> KIND-B");
    assert_eq!(d.children.len(), 2);
}

#[test]
fn leaf_against_leaf_with_equal_content_is_unchanged() {
    let l = named("N", "k");
    let r = named("N", "k");
    let d = compute_tree_diff(&l, &r);
    assert_eq!(d.status, NodeStatus::Unchanged);
    assert_eq!(d.children.len(), 0);
    assert_eq!(d.key.as_deref(), Some("k"));
    assert_eq!(d.tag, "N");
}

fn assert_same_diff(a: &DiffNode, b: &DiffNode) {
    assert_eq!(a.status, b.status);
    assert_eq!(a.tag, b.tag);
    assert_eq!(a.key, b.key);
    assert_eq!(a.left_fragment, b.left_fragment);
    assert_eq!(a.right_fragment, b.right_fragment);
    assert_eq!(a.children.len(), b.children.len());
    for (ca, cb) in a.children.iter().zip(b.children.iter()) {
        assert_same_diff(ca, cb);
    }
}

#[test]
fn diff_is_deterministic_across_calls() {
    let l1 = sample_doc(&["CompA", "CompB"]);
    let r1 = sample_doc(&["CompB", "CompC"]);
    let first = compute_tree_diff(&l1, &r1);
    let l2 = sample_doc(&["CompA", "CompB"]);
    let r2 = sample_doc(&["CompB", "CompC"]);
    let second = compute_tree_diff(&l2, &r2);
    assert_same_diff(&first, &second);
}

fn assert_all_status(d: &DiffNode, status: NodeStatus) {
    assert_eq!(d.status, status);
    for c in &d.children {
        assert_all_status(c, status);
    }
}

#[test]
fn one_sided_subtrees_keep_their_status_on_every_descendant() {
    // Left has a component with inner structure that the right lacks, and
    // the right has one the left lacks: each one-sided subtree carries its
    // status down to every node, grandchildren included.
    let mut gone = named("COMPONENT", "Gone");
    let mut port = named("PORT", "p");
    port.children.push(named("COMSPEC", "c"));
    gone.children.push(port);

    let mut born = named("COMPONENT", "Born");
    born.children.push(named("PORT", "q"));

    let mut l = Element::new("COMPONENTS".to_string());
    l.children.push(named("COMPONENT", "Kept"));
    l.children.push(gone);
    let mut r = Element::new("COMPONENTS".to_string());
    r.children.push(named("COMPONENT", "Kept"));
    r.children.push(born);

    let d = compute_tree_diff(&l, &r);
    assert_eq!(d.children.len(), 3);
    assert_eq!(d.children[0].status, NodeStatus::Unchanged);
    assert_all_status(&d.children[1], NodeStatus::Removed);
    assert_all_status(&d.children[2], NodeStatus::Added);
}
