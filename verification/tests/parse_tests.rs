use arxml_diff::element::{attr_get, local_name};
use arxml_diff::parse::{eq_ignore_case, trim_text, TreeBuilder};
use arxml_diff::{Attr, Element};

fn attr(name: &str, value: &str) -> Attr {
    Attr { name: name.to_string(), value: value.to_string() }
}

fn feed_named(b: &mut TreeBuilder, tag: &str, short_name: &str) {
    b.start_element(tag.to_string(), vec![]);
    b.start_element("SHORT-NAME".to_string(), vec![]);
    b.text_chunk(short_name);
    assert!(b.end_element().is_none());
}

fn sample_doc(comps: &[&str]) -> Element {
    let mut b = TreeBuilder::new();
    b.start_element("ARXML".to_string(), vec![]);
    feed_named(&mut b, "ECU", "MyEcu");
    b.start_element("COMPONENTS".to_string(), vec![]);
    for c in comps {
        feed_named(&mut b, "COMPONENT", c);
        assert!(b.end_element().is_none());
    }
    assert!(b.end_element().is_none());
    assert!(b.end_element().is_none());
    b.end_element().expect("root")
}

#[test]
fn builder_returns_the_root_when_it_closes() {
    let left = sample_doc(&["CompA", "CompB"]);
    assert_eq!(left.tag, "ARXML");
    let right = sample_doc(&["CompB", "CompC"]);
    assert_eq!(right.tag, "ARXML");
}

#[test]
fn short_name_extraction() {
    let left = sample_doc(&["CompA", "CompB"]);
    let ecu = left.children.iter().find(|c| c.tag.eq_ignore_ascii_case("ECU")).expect("ECU");
    assert_eq!(ecu.short_name.as_deref(), Some("MyEcu"));
    let components =
        ecu.children.iter().find(|c| c.tag.eq_ignore_ascii_case("COMPONENTS")).expect(
            "COMPONENTS",
        );
    let comp_names: Vec<_> =
        components.children.iter().filter_map(|c| c.short_name.clone()).collect();
    assert_eq!(comp_names, vec!["CompA".to_string(), "CompB".to_string()]);

    let right = sample_doc(&["CompB", "CompC"]);
    let ecu_r = right.children.iter().find(|c| c.tag.eq_ignore_ascii_case("ECU")).expect("ECU");
    let components_r =
        ecu_r.children.iter().find(|c| c.tag.eq_ignore_ascii_case("COMPONENTS")).expect(
            "COMPONENTS",
        );
    let comp_names_r: Vec<_> =
        components_r.children.iter().filter_map(|c| c.short_name.clone()).collect();
    assert_eq!(comp_names_r, vec!["CompB".to_string(), "CompC".to_string()]);
}

#[test]
fn short_name_child_is_not_kept_as_a_child() {
    let mut b = TreeBuilder::new();
    feed_named(&mut b, "ECU", "MyEcu");
    let ecu = b.end_element().expect("root");
    assert_eq!(ecu.short_name.as_deref(), Some("MyEcu"));
    assert!(ecu.children.is_empty());
}

#[test]
fn short_name_folding_strips_a_namespace_prefix() {
    let mut b = TreeBuilder::new();
    b.start_element("ECU".to_string(), vec![]);
    b.start_element("ns:short-name".to_string(), vec![]);
    b.text_chunk("Named");
    assert!(b.end_element().is_none());
    let ecu = b.end_element().expect("root");
    assert_eq!(ecu.short_name.as_deref(), Some("Named"));
    assert!(ecu.children.is_empty());
}

#[test]
fn uuid_attribute_is_collected_case_insensitively() {
    let mut b = TreeBuilder::new();
    b.start_element("E".to_string(), vec![attr("Uuid", "u-1"), attr("x", "y")]);
    let e = b.end_element().expect("root");
    assert_eq!(e.uuid.as_deref(), Some("u-1"));
    assert_eq!(attr_get(&e.attributes, &"Uuid".to_string()).as_deref(), Some("u-1"));
    assert_eq!(attr_get(&e.attributes, &"x".to_string()).as_deref(), Some("y"));
    assert_eq!(attr_get(&e.attributes, &"missing".to_string()), None);
}

#[test]
fn later_attribute_binding_replaces_an_earlier_one() {
    let mut b = TreeBuilder::new();
    b.start_element("E".to_string(), vec![attr("a", "1"), attr("a", "2")]);
    let e = b.end_element().expect("root");
    assert_eq!(attr_get(&e.attributes, &"a".to_string()).as_deref(), Some("2"));
}

#[test]
fn text_chunks_are_trimmed_and_joined_with_single_spaces() {
    let mut b = TreeBuilder::new();
    b.start_element("E".to_string(), vec![]);
    b.text_chunk("  hello\n");
    b.text_chunk("\t ");
    b.text_chunk("world");
    let e = b.end_element().expect("root");
    assert_eq!(e.text.as_deref(), Some("hello world"));
}

#[test]
fn stray_events_are_ignored() {
    let mut b = TreeBuilder::new();
    b.text_chunk("floating");
    assert!(b.end_element().is_none());
    b.start_element("E".to_string(), vec![]);
    let e = b.end_element().expect("root");
    assert_eq!(e.text, None);
}

#[test]
fn trimming_strips_both_ends_only() {
    assert_eq!(trim_text("  a b  "), "a b");
    assert_eq!(trim_text("\t\r\n "), "");
    assert_eq!(trim_text(""), "");
    assert_eq!(trim_text("x"), "x");
    assert_eq!(trim_text(" x"), "x");
    assert_eq!(trim_text("x "), "x");
}

#[test]
fn case_insensitive_name_comparison() {
    assert!(eq_ignore_case("short-name", "SHORT-NAME"));
    assert!(eq_ignore_case("UUID", "uuid"));
    assert!(!eq_ignore_case("UUID", "UUI"));
    assert!(!eq_ignore_case("a", "b"));
}

#[test]
fn local_name_strips_the_last_prefix() {
    assert_eq!(local_name("ns:SHORT-NAME"), "SHORT-NAME");
    assert_eq!(local_name("SHORT-NAME"), "SHORT-NAME");
    assert_eq!(local_name("a:b:c"), "c");
    assert_eq!(local_name("trailing:"), "");
}
