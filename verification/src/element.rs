//! The element tree consumed by the diff engine.
//!
//! An element carries a tag, an optional distinguished short name, an
//! optional unique identifier, an unordered attribute mapping (held as an
//! ordered list of pairs, compared by lookup), optional text content and an
//! ordered list of children.

use vstd::prelude::*;

verus! {

/// One attribute of an element: a name and a value.
#[derive(Debug)]
pub struct Attr {
    pub name: String,
    pub value: String,
}

/// The mathematical content of one attribute.
pub open spec fn attr_view(a: Attr) -> (Seq<char>, Seq<char>) {
    (a.name@, a.value@)
}

/// The mathematical content of an attribute list, in order.
pub open spec fn attrs_view(attrs: Seq<Attr>) -> Seq<(Seq<char>, Seq<char>)> {
    attrs.map_values(|a: Attr| attr_view(a))
}

/// The view of an optional string.
pub open spec fn opt_str_view(o: Option<String>) -> Option<Seq<char>> {
    match o {
        Some(s) => Some(s@),
        None => None,
    }
}

/// A node of a parsed markup tree.
#[derive(Debug)]
pub struct Element {
    pub tag: String,
    pub short_name: Option<String>,
    pub uuid: Option<String>,
    pub attributes: Vec<Attr>,
    pub text: Option<String>,
    pub children: Vec<Element>,
}

/// Number of nodes in the subtree rooted at `e`, the root included.
/// Serves as the termination measure of every recursive walk of a tree.
pub open spec fn elem_size(e: Element) -> nat
    decreases e, 0int,
{
    1 + children_size(e.children@)
}

/// Total number of nodes in a forest.
pub open spec fn children_size(cs: Seq<Element>) -> nat
    decreases cs, 1int,
{
    if cs.len() == 0 {
        0
    } else {
        elem_size(cs[0]) + children_size(cs.drop_first())
    }
}

/// Every tree in a forest is no larger than the whole forest.
pub proof fn lemma_child_size(cs: Seq<Element>, i: int)
    requires
        0 <= i < cs.len(),
    ensures
        elem_size(cs[i]) <= children_size(cs),
    decreases cs.len(),
{
    if i > 0 {
        lemma_child_size(cs.drop_first(), i - 1);
        assert(cs.drop_first()[i - 1] == cs[i]);
    }
}

impl Element {
    /// A fresh element with the given tag and everything else empty.
    pub fn new(tag: String) -> (e: Element)
        ensures
            e.tag == tag,
            e.short_name is None,
            e.uuid is None,
            e.attributes@ =~= Seq::<Attr>::empty(),
            e.text is None,
            e.children@ =~= Seq::<Element>::empty(),
    {
        Element {
            tag,
            short_name: None,
            uuid: None,
            attributes: Vec::new(),
            text: None,
            children: Vec::new(),
        }
    }
}

/// The identity an element announces itself, if any: its short name when
/// present, else its unique identifier.
pub open spec fn own_key_spec(e: Element) -> Option<Seq<char>> {
    match e.short_name {
        Some(s) => Some(s@),
        None => match e.uuid {
            Some(u) => Some(u@),
            None => None,
        },
    }
}

/// The identity used to align an element against the other side: its own
/// key when it has one, else its tag.
pub open spec fn key_spec(e: Element) -> Seq<char> {
    match own_key_spec(e) {
        Some(k) => k,
        None => e.tag@,
    }
}

/// The announced identity of `e`, if any, as an owned value.
pub fn own_key(e: &Element) -> (r: Option<String>)
    ensures
        opt_str_view(r) == own_key_spec(*e),
{
    if let Some(sn) = &e.short_name {
        return Some(sn.clone());
    }
    if let Some(u) = &e.uuid {
        return Some(u.clone());
    }
    None
}

/// The alignment key of `e`: short name, else unique identifier, else tag.
pub fn key_of(e: &Element) -> (r: String)
    ensures
        r@ == key_spec(*e),
{
    if let Some(sn) = &e.short_name {
        return sn.clone();
    }
    if let Some(u) = &e.uuid {
        return u.clone();
    }
    e.tag.clone()
}

/// The derived identity depends only on the element's own naming fields,
/// never on its children, its siblings or their order.
pub proof fn lemma_identity_stability(a: Element, b: Element)
    requires
        a.tag@ == b.tag@,
        opt_str_view(a.short_name) == opt_str_view(b.short_name),
        opt_str_view(a.uuid) == opt_str_view(b.uuid),
    ensures
        key_spec(a) == key_spec(b),
        own_key_spec(a) == own_key_spec(b),
{
}

/// Where the local part of a qualified name starts: one past the last colon,
/// or the start of the name when it has none.
pub open spec fn local_start(s: Seq<char>) -> int {
    match s.index_of_last(':') {
        Some(i) => i + 1,
        None => 0,
    }
}

/// The local part of a qualified name: everything after the last colon.
pub open spec fn local_name_spec(s: Seq<char>) -> Seq<char> {
    s.subrange(local_start(s), s.len() as int)
}

/// Strips a namespace prefix: returns the part of `name` after the last
/// colon, or all of `name` when it contains none.
pub fn local_name(name: &str) -> (r: &str)
    ensures
        r@ == local_name_spec(name@),
{
    let n = name.unicode_len();
    let mut i: usize = 0;
    let mut last: Option<usize> = None;
    while i < n
        invariant
            0 <= i <= n,
            n == name@.len(),
            match last {
                Some(b) => {
                    &&& b < i
                    &&& name@[b as int] == ':'
                    &&& forall|j: int| b < j < i ==> name@[j] != ':'
                },
                None => forall|j: int| 0 <= j < i ==> name@[j] != ':',
            },
        decreases n - i,
    {
        if name.get_char(i) == ':' {
            last = Some(i);
        }
        i += 1;
    }
    proof {
        name@.index_of_last_ensures(':');
        match last {
            Some(b) => {
                assert(name@.contains(':'));
                assert(name@.index_of_last(':') == Some(b as int));
            },
            None => {
                assert(forall|j: int| 0 <= j < name@.len() ==> name@[j] != ':');
                assert(!name@.contains(':'));
            },
        }
    }
    match last {
        Some(b) => name.substring_char(b + 1, n),
        None => {
            proof {
                assert(name@.subrange(0, n as int) =~= name@);
            }
            name
        },
    }
}

/// First-match lookup in an attribute list: the value bound to `name`, if
/// any.  This is the mapping an attribute list denotes.
pub open spec fn attr_lookup(av: Seq<(Seq<char>, Seq<char>)>, name: Seq<char>) -> Option<Seq<char>>
    decreases av.len(),
{
    if av.len() == 0 {
        None
    } else if av[0].0 == name {
        Some(av[0].1)
    } else {
        attr_lookup(av.drop_first(), name)
    }
}

/// Two attribute lists denote the same mapping: every name looks up to the
/// same value on both sides, regardless of order.
pub open spec fn attrs_equiv(a: Seq<(Seq<char>, Seq<char>)>, b: Seq<(Seq<char>, Seq<char>)>) -> bool {
    forall|n: Seq<char>| attr_lookup(a, n) == attr_lookup(b, n)
}

/// A name that looks up to a value occurs in the list.
proof fn lemma_lookup_some_occurs(av: Seq<(Seq<char>, Seq<char>)>, n: Seq<char>)
    requires
        attr_lookup(av, n) is Some,
    ensures
        exists|i: int| 0 <= i < av.len() && av[i].0 == n,
    decreases av.len(),
{
    if av.len() > 0 && av[0].0 != n {
        lemma_lookup_some_occurs(av.drop_first(), n);
        let i = choose|i: int| 0 <= i < av.drop_first().len() && av.drop_first()[i].0 == n;
        assert(av[i + 1].0 == n);
    }
}

/// Skipping past entries whose name is not `n` leaves the lookup unchanged.
proof fn lemma_lookup_skip(av: Seq<(Seq<char>, Seq<char>)>, n: Seq<char>, i: int)
    requires
        0 <= i < av.len(),
        av[i].0 != n,
    ensures
        attr_lookup(av.skip(i), n) == attr_lookup(av.skip(i + 1), n),
{
    assert(av.skip(i)[0] == av[i]);
    assert(av.skip(i).drop_first() =~= av.skip(i + 1));
}

/// The value bound to `name`, if any, as an owned string.
pub fn attr_get(attrs: &Vec<Attr>, name: &String) -> (r: Option<String>)
    ensures
        opt_str_view(r) == attr_lookup(attrs_view(attrs@), name@),
{
    let ghost av = attrs_view(attrs@);
    proof {
        assert(av.skip(0) =~= av);
    }
    let n = attrs.len();
    let mut i: usize = 0;
    while i < n
        invariant
            0 <= i <= n,
            n == attrs@.len(),
            av == attrs_view(attrs@),
            av.len() == n,
            attr_lookup(av, name@) == attr_lookup(av.skip(i as int), name@),
            forall|j: int| 0 <= j < i ==> av[j].0 != name@,
        decreases n - i,
    {
        proof {
            assert(av[i as int] == attr_view(attrs@[i as int]));
        }
        if attrs[i].name == *name {
            assert(av.skip(i as int)[0] == av[i as int]);
            return Some(attrs[i].value.clone());
        }
        proof {
            lemma_lookup_skip(av, name@, i as int);
        }
        i += 1;
    }
    proof {
        assert(av.skip(n as int) =~= Seq::<(Seq<char>, Seq<char>)>::empty());
    }
    None
}

/// Equality of optional strings, by content.
pub fn opt_text_eq(a: &Option<String>, b: &Option<String>) -> (r: bool)
    ensures
        r == (opt_str_view(*a) == opt_str_view(*b)),
{
    match (a, b) {
        (Some(x), Some(y)) => *x == *y,
        (None, None) => true,
        _ => false,
    }
}

/// One-sided containment check: every name of `a` looks up equally in `a`
/// and in `b`.
fn attrs_contained(a: &Vec<Attr>, b: &Vec<Attr>) -> (r: bool)
    ensures
        r == forall|i: int|
            0 <= i < a@.len() ==> attr_lookup(attrs_view(b@), a@[i].name@) == attr_lookup(
                attrs_view(a@),
                a@[i].name@,
            ),
{
    let n = a.len();
    let mut i: usize = 0;
    while i < n
        invariant
            0 <= i <= n,
            n == a@.len(),
            forall|j: int|
                0 <= j < i ==> attr_lookup(attrs_view(b@), a@[j].name@) == attr_lookup(
                    attrs_view(a@),
                    a@[j].name@,
                ),
        decreases n - i,
    {
        let va = attr_get(a, &a[i].name);
        let vb = attr_get(b, &a[i].name);
        if !opt_text_eq(&va, &vb) {
            return false;
        }
        i += 1;
    }
    true
}

/// Mutual containment of first-match lookups makes the two mappings equal.
proof fn lemma_contained_equiv(av: Seq<(Seq<char>, Seq<char>)>, bv: Seq<(Seq<char>, Seq<char>)>)
    requires
        forall|i: int| 0 <= i < av.len() ==> attr_lookup(bv, av[i].0) == attr_lookup(av, av[i].0),
        forall|j: int| 0 <= j < bv.len() ==> attr_lookup(av, bv[j].0) == attr_lookup(bv, bv[j].0),
    ensures
        attrs_equiv(av, bv),
{
    assert forall|n: Seq<char>| attr_lookup(av, n) == attr_lookup(bv, n) by {
        if attr_lookup(av, n) is Some {
            lemma_lookup_some_occurs(av, n);
        } else if attr_lookup(bv, n) is Some {
            lemma_lookup_some_occurs(bv, n);
        }
    }
}

/// Whether two attribute lists denote the same unordered mapping.
pub fn attrs_equal(a: &Vec<Attr>, b: &Vec<Attr>) -> (r: bool)
    ensures
        r == attrs_equiv(attrs_view(a@), attrs_view(b@)),
{
    let fwd = attrs_contained(a, b);
    let bwd = attrs_contained(b, a);
    if fwd && bwd {
        proof {
            lemma_contained_equiv(attrs_view(a@), attrs_view(b@));
        }
        true
    } else {
        proof {
            if !fwd {
                let i = choose|i: int|
                    0 <= i < a@.len() && attr_lookup(attrs_view(b@), a@[i].name@) != attr_lookup(
                        attrs_view(a@),
                        a@[i].name@,
                    );
                assert(!attrs_equiv(attrs_view(a@), attrs_view(b@))) by {
                    assert(attr_lookup(attrs_view(a@), a@[i].name@) != attr_lookup(
                        attrs_view(b@),
                        a@[i].name@,
                    ));
                }
            } else {
                let j = choose|j: int|
                    0 <= j < b@.len() && attr_lookup(attrs_view(a@), b@[j].name@) != attr_lookup(
                        attrs_view(b@),
                        b@[j].name@,
                    );
                assert(attr_lookup(attrs_view(a@), b@[j].name@) != attr_lookup(
                    attrs_view(b@),
                    b@[j].name@,
                ));
            }
        }
        false
    }
}

/// Deep, order-respecting equality of two element trees by content.
pub open spec fn elem_deep_eq(a: Element, b: Element) -> bool
    decreases a, 0int,
{
    &&& a.tag@ == b.tag@
    &&& opt_str_view(a.short_name) == opt_str_view(b.short_name)
    &&& opt_str_view(a.uuid) == opt_str_view(b.uuid)
    &&& attrs_view(a.attributes@) == attrs_view(b.attributes@)
    &&& opt_str_view(a.text) == opt_str_view(b.text)
    &&& a.children@.len() == b.children@.len()
    &&& forall|i: int|
        0 <= i < a.children@.len() ==> elem_deep_eq(#[trigger] a.children@[i], b.children@[i])
}

/// The two elements carry pairwise deep-equal child lists; their own
/// content may still differ.
pub open spec fn child_lists_deep_eq(a: Element, b: Element) -> bool {
    &&& a.children@.len() == b.children@.len()
    &&& forall|i: int|
        0 <= i < a.children@.len() ==> elem_deep_eq(#[trigger] a.children@[i], b.children@[i])
}

/// The markup text of one attribute, as it appears inside a start tag.
pub open spec fn attr_text(a: (Seq<char>, Seq<char>)) -> Seq<char> {
    " "@ + a.0 + "=\""@ + a.1 + "\""@
}

/// The markup text of an attribute list.
pub open spec fn attrs_text(attrs: Seq<Attr>) -> Seq<char>
    decreases attrs.len(),
{
    if attrs.len() == 0 {
        Seq::empty()
    } else {
        attrs_text(attrs.drop_last()) + attr_text(attr_view(attrs.last()))
    }
}

/// The text content of an element, empty when it has none.
pub open spec fn text_part(t: Option<String>) -> Seq<char> {
    match t {
        Some(s) => s@,
        None => Seq::empty(),
    }
}

/// The markup snapshot of a whole subtree: start tag with attributes, text,
/// the children in order, end tag.
pub open spec fn xml_of(e: Element) -> Seq<char>
    decreases e, 0int,
{
    "<"@ + e.tag@ + attrs_text(e.attributes@) + ">"@ + text_part(e.text) + children_xml(
        e.children@,
    ) + "</"@ + e.tag@ + ">"@
}

/// The concatenated markup snapshots of a forest.
pub open spec fn children_xml(cs: Seq<Element>) -> Seq<char>
    decreases cs, 1int,
{
    if cs.len() == 0 {
        Seq::empty()
    } else {
        children_xml(cs.drop_last()) + xml_of(cs.last())
    }
}

/// Builds the markup snapshot of the subtree rooted at `e`.
pub fn fragment_of(e: &Element) -> (r: String)
    ensures
        r@ == xml_of(*e),
    decreases elem_size(*e),
{
    let mut s = String::new();
    s.append("<");
    s.append(e.tag.as_str());
    let na = e.attributes.len();
    let mut i: usize = 0;
    while i < na
        invariant
            0 <= i <= na,
            na == e.attributes@.len(),
            s@ == "<"@ + e.tag@ + attrs_text(e.attributes@.take(i as int)),
        decreases na - i,
    {
        proof {
            assert(e.attributes@.take(i as int + 1).drop_last() =~= e.attributes@.take(i as int));
            assert(e.attributes@.take(i as int + 1).last() == e.attributes@[i as int]);
        }
        s.append(" ");
        s.append(e.attributes[i].name.as_str());
        s.append("=\"");
        s.append(e.attributes[i].value.as_str());
        s.append("\"");
        i += 1;
        proof {
            assert(s@ =~= "<"@ + e.tag@ + attrs_text(e.attributes@.take(i as int)));
        }
    }
    proof {
        assert(e.attributes@.take(na as int) =~= e.attributes@);
    }
    s.append(">");
    if let Some(t) = &e.text {
        s.append(t.as_str());
    }
    let ghost head = "<"@ + e.tag@ + attrs_text(e.attributes@) + ">"@ + text_part(e.text);
    assert(s@ == head);
    let nc = e.children.len();
    let mut j: usize = 0;
    while j < nc
        invariant
            0 <= j <= nc,
            nc == e.children@.len(),
            head == "<"@ + e.tag@ + attrs_text(e.attributes@) + ">"@ + text_part(e.text),
            s@ == head + children_xml(e.children@.take(j as int)),
        decreases nc - j,
    {
        proof {
            assert(e.children@.take(j as int + 1).drop_last() =~= e.children@.take(j as int));
            assert(e.children@.take(j as int + 1).last() == e.children@[j as int]);
            lemma_child_size(e.children@, j as int);
            assert(elem_size(e.children@[j as int]) <= children_size(e.children@));
        }
        let c = fragment_of(&e.children[j]);
        s.append(c.as_str());
        j += 1;
        proof {
            assert(s@ =~= head + children_xml(e.children@.take(j as int)));
        }
    }
    proof {
        assert(e.children@.take(nc as int) =~= e.children@);
    }
    s.append("</");
    s.append(e.tag.as_str());
    s.append(">");
    proof {
        assert(s@ =~= xml_of(*e));
    }
    s
}

} // verus!
