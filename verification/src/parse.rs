//! The tree builder behind the streaming document reader.
//!
//! The reader itself is an external collaborator that turns raw markup
//! into a stream of start, text and end events.  Everything the element
//! tree's identity rules depend on happens here: a distinguished name
//! child is folded into its parent's short name and not kept as a child,
//! a distinguished unique-identifier attribute is collected under a
//! case-insensitive match, and text arrives in chunks that are trimmed
//! and joined with single spaces.

use vstd::prelude::*;

use crate::element::attr_lookup;
use crate::element::attrs_view;
use crate::element::local_name;
use crate::element::local_name_spec;
use crate::element::opt_str_view;
use crate::element::Attr;
use crate::element::Element;

verus! {

/// ASCII lowercasing of one character.
pub open spec fn lower_char_spec(c: char) -> char {
    if 'A' <= c && c <= 'Z' {
        ((c as int) + 32) as char
    } else {
        c
    }
}

/// ASCII lowercasing of a character sequence.
pub open spec fn lower_seq(s: Seq<char>) -> Seq<char> {
    s.map_values(|c: char| lower_char_spec(c))
}

/// Whether two names are the same up to ASCII case.
pub open spec fn eq_ignore_case_spec(a: Seq<char>, b: Seq<char>) -> bool {
    lower_seq(a) == lower_seq(b)
}

fn lower_char(c: char) -> (r: char)
    ensures
        r == lower_char_spec(c),
{
    if (c as u32) >= 65 && (c as u32) <= 90 {
        (((c as u8) + 32) as char)
    } else {
        c
    }
}

/// Whether two names are the same up to ASCII case.
pub fn eq_ignore_case(a: &str, b: &str) -> (r: bool)
    ensures
        r == eq_ignore_case_spec(a@, b@),
{
    let na = a.unicode_len();
    let nb = b.unicode_len();
    if na != nb {
        proof {
            assert(lower_seq(a@).len() == a@.len());
            assert(lower_seq(b@).len() == b@.len());
        }
        return false;
    }
    let mut i: usize = 0;
    while i < na
        invariant
            0 <= i <= na,
            na == a@.len(),
            na == b@.len(),
            forall|j: int| 0 <= j < i ==> #[trigger] lower_seq(a@)[j] == lower_seq(b@)[j],
        decreases na - i,
    {
        let ca = lower_char(a.get_char(i));
        let cb = lower_char(b.get_char(i));
        if ca != cb {
            proof {
                assert(lower_seq(a@)[i as int] != lower_seq(b@)[i as int]);
            }
            return false;
        }
        i += 1;
    }
    proof {
        assert(lower_seq(a@) =~= lower_seq(b@));
    }
    true
}

/// The characters stripped from the ends of a text chunk: space, tab,
/// carriage return and line feed — exactly the four characters the markup
/// language itself counts as whitespace.  Other Unicode whitespace is
/// deliberately kept: inside markup text it is content.
pub open spec fn is_space(c: char) -> bool {
    c == ' ' || c == '\t' || c == '\n' || c == '\r'
}

/// The first index of `s`, at or after `i`, holding a non-space.
pub open spec fn first_ns(s: Seq<char>, i: int) -> int
    decreases s.len() - i,
{
    if i < 0 || i >= s.len() {
        s.len() as int
    } else if is_space(s[i]) {
        first_ns(s, i + 1)
    } else {
        i
    }
}

/// The end, at or before `i`, of the last non-space of `s`.
pub open spec fn last_ns(s: Seq<char>, i: int) -> int
    decreases i,
{
    if i <= 0 || i > s.len() {
        0
    } else if is_space(s[i - 1]) {
        last_ns(s, i - 1)
    } else {
        i
    }
}

/// A text chunk with leading and trailing spaces stripped.
pub open spec fn trim_spec(s: Seq<char>) -> Seq<char> {
    if first_ns(s, 0) >= last_ns(s, s.len() as int) {
        Seq::empty()
    } else {
        s.subrange(first_ns(s, 0), last_ns(s, s.len() as int))
    }
}

fn is_space_exec(c: char) -> (r: bool)
    ensures
        r == is_space(c),
{
    c == ' ' || c == '\t' || c == '\n' || c == '\r'
}

/// Strips leading and trailing spaces from a text chunk.
pub fn trim_text(s: &str) -> (r: String)
    ensures
        r@ == trim_spec(s@),
{
    let n = s.unicode_len();
    let mut f: usize = 0;
    while f < n && is_space_exec(s.get_char(f))
        invariant
            0 <= f <= n,
            n == s@.len(),
            first_ns(s@, 0) == first_ns(s@, f as int),
        decreases n - f,
    {
        f += 1;
    }
    proof {
        assert(first_ns(s@, 0) == f as int);
    }
    // The scan from the right can stop at `f` only when the whole text
    // is spaces: `s[f]` itself is never a space once `f < n`.
    let mut l: usize = n;
    while l > f && is_space_exec(s.get_char(l - 1))
        invariant
            f <= l <= n,
            n == s@.len(),
            first_ns(s@, 0) == f as int,
            f < n ==> !is_space(s@[f as int]),
            last_ns(s@, n as int) == last_ns(s@, l as int),
            l == f ==> f == n,
        decreases l,
    {
        l -= 1;
    }
    if l == f {
        proof {
            lemma_last_ns_le(s@, n as int);
            assert(trim_spec(s@) == Seq::<char>::empty());
        }
        return String::new();
    }
    // f < l: s[l - 1] is a non-space, so last_ns(s, len) == l.
    proof {
        assert(!is_space(s@[l - 1]));
        assert(last_ns(s@, l as int) == l as int);
    }
    let r = s.substring_char(f, l);
    proof {
        assert(r@ =~= trim_spec(s@));
    }
    r.to_owned()
}

/// The end of the last non-space never lies past the scan start.
proof fn lemma_last_ns_le(s: Seq<char>, i: int)
    requires
        0 <= i,
    ensures
        last_ns(s, i) <= i,
    decreases i,
{
    if 0 < i <= s.len() && is_space(s[i - 1]) {
        lemma_last_ns_le(s, i - 1);
    }
}

/// The mapping an attribute list read in document order denotes: the last
/// occurrence of a name wins, as in a mapping filled by insertion.
pub open spec fn attrs_map_of(s: Seq<Attr>, n: Seq<char>) -> Option<Seq<char>>
    decreases s.len(),
{
    if s.len() == 0 {
        None
    } else if s.last().name@ == n {
        Some(s.last().value@)
    } else {
        attrs_map_of(s.drop_last(), n)
    }
}

/// The collected unique identifier of an attribute list: the value of
/// the last attribute whose name is `UUID` up to ASCII case.
pub open spec fn uuid_of(s: Seq<Attr>) -> Option<Seq<char>>
    decreases s.len(),
{
    if s.len() == 0 {
        None
    } else if eq_ignore_case_spec(s.last().name@, "UUID"@) {
        Some(s.last().value@)
    } else {
        uuid_of(s.drop_last())
    }
}

/// Binds `name` to `value`, replacing an earlier binding of the same
/// name and keeping the order of first insertion otherwise.
fn set_attr(attrs: &mut Vec<Attr>, name: String, value: String)
    ensures
        forall|n: Seq<char>|
            #[trigger] attr_lookup(attrs_view(final(attrs)@), n) == (if n == name@ {
                Some(value@)
            } else {
                attr_lookup(attrs_view(old(attrs)@), n)
            }),
{
    let n = attrs.len();
    let mut i: usize = 0;
    while i < n
        invariant
            0 <= i <= n,
            n == attrs@.len(),
            attrs@ == old(attrs)@,
            forall|j: int| 0 <= j < i ==> attrs@[j].name@ != name@,
        decreases n - i,
    {
        if attrs[i].name == name {
            let ghost before = attrs@;
            attrs.set(i, Attr { name, value });
            proof {
                lemma_set_attr_replaced(attrs_view(before), attrs_view(attrs@), i as int);
            }
            return ;
        }
        i += 1;
    }
    let ghost before = attrs@;
    attrs.push(Attr { name, value });
    proof {
        lemma_set_attr_appended(attrs_view(before), attrs_view(attrs@));
    }
}

/// Replacing the first-matching entry rewrites exactly that name's value.
proof fn lemma_set_attr_replaced(av: Seq<(Seq<char>, Seq<char>)>, bv: Seq<(Seq<char>, Seq<char>)>, i: int)
    requires
        0 <= i < av.len(),
        bv.len() == av.len(),
        bv[i].0 == av[i].0,
        forall|j: int| 0 <= j < av.len() && j != i ==> bv[j] == av[j],
        forall|j: int| 0 <= j < i ==> av[j].0 != av[i].0,
    ensures
        forall|n: Seq<char>|
            #[trigger] attr_lookup(bv, n) == (if n == av[i].0 {
                Some(bv[i].1)
            } else {
                attr_lookup(av, n)
            }),
    decreases av.len(),
{
    assert forall|n: Seq<char>| #[trigger]
        attr_lookup(bv, n) == (if n == av[i].0 {
            Some(bv[i].1)
        } else {
            attr_lookup(av, n)
        }) by {
        lemma_lookup_pointwise(av, bv, i, n);
    }
}

proof fn lemma_lookup_pointwise(
    av: Seq<(Seq<char>, Seq<char>)>,
    bv: Seq<(Seq<char>, Seq<char>)>,
    i: int,
    n: Seq<char>,
)
    requires
        0 <= i < av.len(),
        bv.len() == av.len(),
        bv[i].0 == av[i].0,
        forall|j: int| 0 <= j < av.len() && j != i ==> bv[j] == av[j],
        forall|j: int| 0 <= j < i ==> av[j].0 != av[i].0,
    ensures
        attr_lookup(bv, n) == (if n == av[i].0 {
            Some(bv[i].1)
        } else {
            attr_lookup(av, n)
        }),
    decreases av.len(),
{
    if i == 0 {
        if av[0].0 != n {
            lemma_lookup_congruent(av.drop_first(), bv.drop_first(), n);
        }
    } else {
        assert(av.drop_first()[i - 1] == av[i]);
        lemma_lookup_pointwise(av.drop_first(), bv.drop_first(), i - 1, n);
        assert(bv[0] == av[0]);
    }
}

proof fn lemma_lookup_congruent(
    av: Seq<(Seq<char>, Seq<char>)>,
    bv: Seq<(Seq<char>, Seq<char>)>,
    n: Seq<char>,
)
    requires
        bv.len() == av.len(),
        forall|j: int| 0 <= j < av.len() ==> bv[j] == av[j],
    ensures
        attr_lookup(bv, n) == attr_lookup(av, n),
    decreases av.len(),
{
    if av.len() > 0 {
        lemma_lookup_congruent(av.drop_first(), bv.drop_first(), n);
    }
}

/// Appending a fresh name binds it and leaves every other name alone.
proof fn lemma_set_attr_appended(av: Seq<(Seq<char>, Seq<char>)>, bv: Seq<(Seq<char>, Seq<char>)>)
    requires
        bv.len() == av.len() + 1,
        forall|j: int| 0 <= j < av.len() ==> bv[j] == av[j],
        forall|j: int| 0 <= j < av.len() ==> av[j].0 != bv[av.len() as int].0,
    ensures
        forall|n: Seq<char>|
            #[trigger] attr_lookup(bv, n) == (if n == bv[av.len() as int].0 {
                Some(bv[av.len() as int].1)
            } else {
                attr_lookup(av, n)
            }),
    decreases av.len(),
{
    assert forall|n: Seq<char>| #[trigger]
        attr_lookup(bv, n) == (if n == bv[av.len() as int].0 {
            Some(bv[av.len() as int].1)
        } else {
            attr_lookup(av, n)
        }) by {
        lemma_append_pointwise(av, bv, n);
    }
}

proof fn lemma_append_pointwise(
    av: Seq<(Seq<char>, Seq<char>)>,
    bv: Seq<(Seq<char>, Seq<char>)>,
    n: Seq<char>,
)
    requires
        bv.len() == av.len() + 1,
        forall|j: int| 0 <= j < av.len() ==> bv[j] == av[j],
        forall|j: int| 0 <= j < av.len() ==> av[j].0 != bv[av.len() as int].0,
    ensures
        attr_lookup(bv, n) == (if n == bv[av.len() as int].0 {
            Some(bv[av.len() as int].1)
        } else {
            attr_lookup(av, n)
        }),
    decreases av.len(),
{
    if av.len() == 0 {
        assert(bv.drop_first() =~= Seq::<(Seq<char>, Seq<char>)>::empty());
    } else {
        assert(bv[0] == av[0]);
        lemma_append_pointwise(av.drop_first(), bv.drop_first(), n);
        assert(bv.drop_first()[av.len() - 1] == bv[av.len() as int]);
    }
}

/// The open-element stack of the tree builder.  Elements are pushed on
/// start events, filled by text events, and folded into their parent on
/// end events.
pub struct TreeBuilder {
    stack: Vec<Element>,
}

impl TreeBuilder {
    /// The open elements, outermost first.
    pub closed spec fn stack_view(&self) -> Seq<Element> {
        self.stack@
    }

    /// A builder with no open element.
    pub fn new() -> (b: TreeBuilder)
        ensures
            b.stack_view() =~= Seq::<Element>::empty(),
    {
        TreeBuilder { stack: Vec::new() }
    }

    /// How many elements are open.
    pub fn depth(&self) -> (n: usize)
        ensures
            n == self.stack_view().len(),
    {
        self.stack.len()
    }

    /// Opens an element: its attribute list is read in document order,
    /// the last binding of a name winning, and the value of a `UUID`
    /// attribute — matched without regard to ASCII case — is collected
    /// as the fallback identity.
    pub fn start_element(&mut self, tag: String, attrs: Vec<Attr>)
        ensures
            final(self).stack_view().len() == old(self).stack_view().len() + 1,
            forall|i: int|
                0 <= i < old(self).stack_view().len() ==> final(self).stack_view()[i] == old(
                    self,
                ).stack_view()[i],
            ({
                let e = final(self).stack_view().last();
                &&& e.tag == tag
                &&& e.short_name is None
                &&& opt_str_view(e.uuid) == uuid_of(attrs@)
                &&& e.text is None
                &&& e.children@.len() == 0
                &&& forall|n: Seq<char>|
                    #[trigger] attr_lookup(attrs_view(e.attributes@), n) == attrs_map_of(attrs@, n)
            }),
    {
        let mut stored: Vec<Attr> = Vec::new();
        let mut uuid: Option<String> = None;
        let n = attrs.len();
        let mut i: usize = 0;
        proof {
            assert(attrs@.take(0) =~= Seq::<Attr>::empty());
        }
        while i < n
            invariant
                0 <= i <= n,
                n == attrs@.len(),
                opt_str_view(uuid) == uuid_of(attrs@.take(i as int)),
                forall|m: Seq<char>|
                    #[trigger] attr_lookup(attrs_view(stored@), m) == attrs_map_of(
                        attrs@.take(i as int),
                        m,
                    ),
            decreases n - i,
        {
            proof {
                assert(attrs@.take(i as int + 1).drop_last() =~= attrs@.take(i as int));
                assert(attrs@.take(i as int + 1).last() == attrs@[i as int]);
            }
            let name = attrs[i].name.clone();
            let value = attrs[i].value.clone();
            if eq_ignore_case(name.as_str(), "UUID") {
                uuid = Some(value.clone());
            }
            set_attr(&mut stored, name, value);
            i += 1;
        }
        proof {
            assert(attrs@.take(n as int) =~= attrs@);
        }
        let e = Element {
            tag,
            short_name: None,
            uuid,
            attributes: stored,
            text: None,
            children: Vec::new(),
        };
        self.stack.push(e);
    }

    /// Adds a text chunk to the innermost open element: the chunk is
    /// trimmed, an empty remainder is dropped, and a non-empty one is
    /// joined to earlier text with a single space.  Text outside any
    /// element is dropped.
    pub fn text_chunk(&mut self, chunk: &str)
        ensures
            final(self).stack_view().len() == old(self).stack_view().len(),
            forall|i: int|
                0 <= i < old(self).stack_view().len() - 1 ==> final(self).stack_view()[i] == old(
                    self,
                ).stack_view()[i],
            ({
                let tr = trim_spec(chunk@);
                old(self).stack_view().len() > 0 ==> ({
                    let before = old(self).stack_view().last();
                    let after = final(self).stack_view().last();
                    &&& after.tag == before.tag
                    &&& after.short_name == before.short_name
                    &&& after.uuid == before.uuid
                    &&& after.attributes == before.attributes
                    &&& after.children == before.children
                    &&& opt_str_view(after.text) == (if tr.len() == 0 {
                        opt_str_view(before.text)
                    } else {
                        match opt_str_view(before.text) {
                            Some(t) => Some(t + seq![' '] + tr),
                            None => Some(tr),
                        }
                    })
                })
            }),
    {
        if self.stack.len() == 0 {
            return ;
        }
        let t = trim_text(chunk);
        if t.as_str().is_empty() {
            return ;
        }
        let mut el = self.stack.pop().unwrap();
        let new_text = match el.text {
            Some(mut existing) => {
                existing.append(" ");
                existing.append(t.as_str());
                proof {
                    reveal_strlit(" ");
                    assert(" "@ =~= seq![' ']);
                }
                Some(existing)
            },
            None => Some(t),
        };
        el.text = new_text;
        self.stack.push(el);
        proof {
            assert(self.stack_view() =~= old(self).stack_view().drop_last().push(
                self.stack_view().last(),
            ));
        }
    }

    /// Closes the innermost open element.  A distinguished name child —
    /// its local tag name is `SHORT-NAME` up to ASCII case — gives its
    /// text to its parent as the short name and is not kept as a child.
    /// Any other element joins its parent's children; an element without
    /// a parent is the finished root and is returned.  A stray end event
    /// with nothing open does nothing.
    pub fn end_element(&mut self) -> (root: Option<Element>)
        ensures
            ({
                let st = old(self).stack_view();
                if st.len() == 0 {
                    final(self).stack_view() == st && root is None
                } else {
                    let el = st.last();
                    let rest = st.drop_last();
                    if rest.len() == 0 {
                        final(self).stack_view().len() == 0 && root == Some(el)
                    } else {
                        let parent = rest.last();
                        &&& root is None
                        &&& final(self).stack_view().len() == rest.len()
                        &&& (forall|i: int|
                            0 <= i < rest.len() - 1 ==> final(self).stack_view()[i] == rest[i])
                        &&& ({
                            let p2 = final(self).stack_view().last();
                            if eq_ignore_case_spec(local_name_spec(el.tag@), "SHORT-NAME"@) {
                                &&& p2.tag == parent.tag
                                &&& opt_str_view(p2.short_name) == opt_str_view(el.text)
                                &&& p2.uuid == parent.uuid
                                &&& p2.attributes == parent.attributes
                                &&& p2.text == parent.text
                                &&& p2.children == parent.children
                            } else {
                                &&& p2.tag == parent.tag
                                &&& p2.short_name == parent.short_name
                                &&& p2.uuid == parent.uuid
                                &&& p2.attributes == parent.attributes
                                &&& p2.text == parent.text
                                &&& p2.children@ == parent.children@.push(el)
                            }
                        })
                    }
                }
            }),
    {
        if self.stack.len() == 0 {
            return None;
        }
        let el = self.stack.pop().unwrap();
        if self.stack.len() == 0 {
            return Some(el);
        }
        let mut parent = self.stack.pop().unwrap();
        if eq_ignore_case(local_name(el.tag.as_str()), "SHORT-NAME") {
            parent.short_name = el.text;
        } else {
            parent.children.push(el);
        }
        self.stack.push(parent);
        proof {
            assert(self.stack_view() =~= old(self).stack_view().drop_last().drop_last().push(
                self.stack_view().last(),
            ));
            assert(forall|i: int|
                0 <= i < old(self).stack_view().drop_last().len() - 1
                    ==> self.stack_view()[i] == old(self).stack_view().drop_last()[i]);
        }
        None
    }
}

} // verus!
