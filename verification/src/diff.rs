//! The structural diff engine.
//!
//! Two element trees are aligned by identity keys.  Every node of the
//! result carries a classification: `Unchanged`, `Added`, `Removed` or
//! `Changed`.  A one-sided subtree keeps its full shape; a keyed match
//! recurses by aligning the two ordered child lists with a minimal-edit
//! sequence alignment over the child keys.  Both raw-markup fragments are
//! captured on every node whose side is present, so that a browser can
//! show and export them later.

use vstd::prelude::*;

use crate::element::attrs_equal;
use crate::element::attrs_equiv;
use crate::element::attrs_view;
use crate::element::child_lists_deep_eq;
use crate::element::children_size;
use crate::element::elem_deep_eq;
use crate::element::elem_size;
use crate::element::fragment_of;
use crate::element::key_of;
use crate::element::key_spec;
use crate::element::lemma_child_size;
use crate::element::opt_str_view;
use crate::element::opt_text_eq;
use crate::element::own_key;
use crate::element::own_key_spec;
use crate::element::xml_of;
use crate::element::Element;

verus! {

/// Classification of one node of a diff tree.
#[derive(Debug, PartialEq, Eq, Clone, Copy, Structural)]
pub enum NodeStatus {
    Unchanged,
    Added,
    Removed,
    Changed,
}

/// One node of the tree the diff engine produces.
#[derive(Debug)]
pub struct DiffNode {
    pub status: NodeStatus,
    pub tag: String,
    pub key: Option<String>,
    pub left_fragment: Option<String>,
    pub right_fragment: Option<String>,
    pub children: Vec<DiffNode>,
}

/// Number of nodes in a diff subtree, the root included.
pub open spec fn dnode_size(d: DiffNode) -> nat
    decreases d, 0int,
{
    1 + dchildren_size(d.children@)
}

/// Total number of nodes in a diff forest.
pub open spec fn dchildren_size(ds: Seq<DiffNode>) -> nat
    decreases ds, 1int,
{
    if ds.len() == 0 {
        0
    } else {
        dnode_size(ds[0]) + dchildren_size(ds.drop_first())
    }
}

/// Every tree in a diff forest is no larger than the whole forest.
pub proof fn lemma_dchild_size(ds: Seq<DiffNode>, i: int)
    requires
        0 <= i < ds.len(),
    ensures
        dnode_size(ds[i]) <= dchildren_size(ds),
    decreases ds.len(),
{
    if i > 0 {
        lemma_dchild_size(ds.drop_first(), i - 1);
        assert(ds.drop_first()[i - 1] == ds[i]);
    }
}

/// The alignment keys of an ordered child list.
pub open spec fn child_keys(cs: Seq<Element>) -> Seq<Seq<char>> {
    cs.map_values(|c: Element| key_spec(c))
}

/// The element's own content matches on both sides: same text and the same
/// unordered attribute mapping.
pub open spec fn content_eq(l: Element, r: Element) -> bool {
    &&& opt_str_view(l.text) == opt_str_view(r.text)
    &&& attrs_equiv(attrs_view(l.attributes@), attrs_view(r.attributes@))
}

/// `d` is the diff of the subtree `e` against an absent right side: every
/// node is `Removed`, the shape of `e` is kept, and the left fragment is
/// captured everywhere.
pub open spec fn is_removed_of(e: Element, d: DiffNode) -> bool
    decreases e,
{
    &&& d.status == NodeStatus::Removed
    &&& d.tag@ == e.tag@
    &&& opt_str_view(d.key) == own_key_spec(e)
    &&& opt_str_view(d.left_fragment) == Some(xml_of(e))
    &&& d.right_fragment is None
    &&& d.children@.len() == e.children@.len()
    &&& forall|i: int|
        0 <= i < e.children@.len() ==> is_removed_of(#[trigger] e.children@[i], d.children@[i])
}

/// `d` is the diff of an absent left side against the subtree `e`: the
/// mirror image of `is_removed_of`.
pub open spec fn is_added_of(e: Element, d: DiffNode) -> bool
    decreases e,
{
    &&& d.status == NodeStatus::Added
    &&& d.tag@ == e.tag@
    &&& opt_str_view(d.key) == own_key_spec(e)
    &&& d.left_fragment is None
    &&& opt_str_view(d.right_fragment) == Some(xml_of(e))
    &&& d.children@.len() == e.children@.len()
    &&& forall|i: int|
        0 <= i < e.children@.len() ==> is_added_of(#[trigger] e.children@[i], d.children@[i])
}

/// Every node of the diff subtree is `Unchanged`.
pub open spec fn all_unchanged(d: DiffNode) -> bool
    decreases d,
{
    &&& d.status == NodeStatus::Unchanged
    &&& forall|i: int| 0 <= i < d.children@.len() ==> all_unchanged(#[trigger] d.children@[i])
}

/// One operation of the key-sequence alignment, mirroring the four
/// operation kinds of a minimal-edit diff of the two key lists.
#[derive(Debug, PartialEq, Eq, Clone, Copy, Structural)]
pub enum AlignOp {
    Equal { old_index: usize, new_index: usize, len: usize },
    Delete { old_index: usize, old_len: usize, new_index: usize },
    Insert { old_index: usize, new_index: usize, new_len: usize },
    Replace { old_index: usize, old_len: usize, new_index: usize, new_len: usize },
}

/// How many positions of the old sequence an operation consumes.
pub open spec fn op_old_len(op: AlignOp) -> int {
    match op {
        AlignOp::Equal { len, .. } => len as int,
        AlignOp::Delete { old_len, .. } => old_len as int,
        AlignOp::Insert { .. } => 0,
        AlignOp::Replace { old_len, .. } => old_len as int,
    }
}

/// How many positions of the new sequence an operation consumes.
pub open spec fn op_new_len(op: AlignOp) -> int {
    match op {
        AlignOp::Equal { len, .. } => len as int,
        AlignOp::Delete { .. } => 0,
        AlignOp::Insert { new_len, .. } => new_len as int,
        AlignOp::Replace { new_len, .. } => new_len as int,
    }
}

/// How many diff children an operation gives rise to.
pub open spec fn op_out_len(op: AlignOp) -> int {
    match op {
        AlignOp::Equal { len, .. } => len as int,
        AlignOp::Delete { old_len, .. } => old_len as int,
        AlignOp::Insert { new_len, .. } => new_len as int,
        AlignOp::Replace { old_len, new_len, .. } => old_len + new_len,
    }
}

/// How many positions an operation edits: everything it consumes, unless
/// it is an equal run.
pub open spec fn op_edit_len(op: AlignOp) -> int {
    match op {
        AlignOp::Equal { .. } => 0,
        AlignOp::Delete { old_len, .. } => old_len as int,
        AlignOp::Insert { new_len, .. } => new_len as int,
        AlignOp::Replace { old_len, new_len, .. } => old_len + new_len,
    }
}

/// The number of edited positions of a whole operation list.
pub open spec fn edit_cost(ops: Seq<AlignOp>) -> int
    decreases ops.len(),
{
    if ops.len() == 0 {
        0
    } else {
        edit_cost(ops.drop_last()) + op_edit_len(ops.last())
    }
}

/// A minimal-edit alignment: no valid alignment of the same two key
/// sequences edits fewer positions.
pub open spec fn min_alignment(ops: Seq<AlignOp>, okeys: Seq<Seq<char>>, nkeys: Seq<Seq<char>>) -> bool {
    forall|other: Seq<AlignOp>|
        #[trigger] ops_valid(other, okeys, nkeys) ==> edit_cost(ops) <= edit_cost(other)
}

/// An operation's consumed ranges start exactly at the running positions
/// of the walk and stay in bounds, and an equal run pairs equal keys.
/// Nothing is said of a delete's new-side index or an insert's old-side
/// index: the alignment reads neither, and the outside compaction pass
/// can leave stale values there when it reorders a delete past an insert.
pub open spec fn op_shape_ok(
    op: AlignOp,
    okeys: Seq<Seq<char>>,
    nkeys: Seq<Seq<char>>,
    oi: int,
    ni: int,
) -> bool {
    match op {
        AlignOp::Equal { old_index, new_index, len } => {
            &&& old_index as int == oi
            &&& new_index as int == ni
            &&& oi + len <= okeys.len()
            &&& ni + len <= nkeys.len()
            &&& forall|k: int| 0 <= k < len ==> #[trigger] okeys[oi + k] == nkeys[ni + k]
        },
        AlignOp::Delete { old_index, old_len, .. } => {
            &&& old_index as int == oi
            &&& oi + old_len <= okeys.len()
        },
        AlignOp::Insert { new_index, new_len, .. } => {
            &&& new_index as int == ni
            &&& ni + new_len <= nkeys.len()
        },
        AlignOp::Replace { old_index, old_len, new_index, new_len } => {
            &&& old_index as int == oi
            &&& new_index as int == ni
            &&& oi + old_len <= okeys.len()
            &&& ni + new_len <= nkeys.len()
        },
    }
}

/// The operations starting at positions `(oi, ni)` walk both key sequences
/// to their ends without gaps or overlap.
pub open spec fn ops_valid_from(
    ops: Seq<AlignOp>,
    okeys: Seq<Seq<char>>,
    nkeys: Seq<Seq<char>>,
    oi: int,
    ni: int,
) -> bool
    decreases ops.len(),
{
    if ops.len() == 0 {
        oi == okeys.len() && ni == nkeys.len()
    } else {
        &&& op_shape_ok(ops[0], okeys, nkeys, oi, ni)
        &&& ops_valid_from(
            ops.drop_first(),
            okeys,
            nkeys,
            oi + op_old_len(ops[0]),
            ni + op_new_len(ops[0]),
        )
    }
}

/// A complete, in-order, gapless alignment of the two key sequences.
pub open spec fn ops_valid(ops: Seq<AlignOp>, okeys: Seq<Seq<char>>, nkeys: Seq<Seq<char>>) -> bool {
    ops_valid_from(ops, okeys, nkeys, 0, 0)
}

proof fn lemma_ops_valid_step(
    ops: Seq<AlignOp>,
    okeys: Seq<Seq<char>>,
    nkeys: Seq<Seq<char>>,
    j: int,
    oi: int,
    ni: int,
)
    requires
        0 <= j < ops.len(),
        ops_valid_from(ops.skip(j), okeys, nkeys, oi, ni),
    ensures
        op_shape_ok(ops[j], okeys, nkeys, oi, ni),
        ops_valid_from(
            ops.skip(j + 1),
            okeys,
            nkeys,
            oi + op_old_len(ops[j]),
            ni + op_new_len(ops[j]),
        ),
{
    assert(ops.skip(j)[0] == ops[j]);
    assert(ops.skip(j).drop_first() =~= ops.skip(j + 1));
}

/// Number of diff children that a whole operation list gives rise to.
pub open spec fn out_count(ops: Seq<AlignOp>) -> int
    decreases ops.len(),
{
    if ops.len() == 0 {
        0
    } else {
        out_count(ops.drop_last()) + op_out_len(ops.last())
    }
}

/// The diff children produced for one operation, starting at `base` in the
/// merged child list.
pub open spec fn op_children_ok(
    op: AlignOp,
    lcs: Seq<Element>,
    rcs: Seq<Element>,
    dcs: Seq<DiffNode>,
    base: int,
) -> bool
    decreases lcs, 0int,
{
    match op {
        AlignOp::Equal { old_index, new_index, len } => forall|k: int|
            0 <= k < len && 0 <= old_index + k < lcs.len() && 0 <= new_index + k < rcs.len() && 0
                <= base + k < dcs.len() ==> is_diff_of(
                #[trigger] lcs[old_index + k],
                rcs[new_index + k],
                dcs[base + k],
            ),
        AlignOp::Delete { old_index, old_len, .. } => forall|k: int|
            0 <= k < old_len && 0 <= old_index + k < lcs.len() && 0 <= base + k < dcs.len()
                ==> is_removed_of(#[trigger] lcs[old_index + k], dcs[base + k]),
        AlignOp::Insert { new_index, new_len, .. } => forall|k: int|
            0 <= k < new_len && 0 <= new_index + k < rcs.len() && 0 <= base + k < dcs.len()
                ==> is_added_of(#[trigger] rcs[new_index + k], dcs[base + k]),
        AlignOp::Replace { old_index, old_len, new_index, new_len } => {
            &&& forall|k: int|
                0 <= k < old_len && 0 <= old_index + k < lcs.len() && 0 <= base + k < dcs.len()
                    ==> is_removed_of(#[trigger] lcs[old_index + k], dcs[base + k])
            &&& forall|k: int|
                0 <= k < new_len && 0 <= new_index + k < rcs.len() && 0 <= base + old_len + k
                    < dcs.len() ==> is_added_of(
                    #[trigger] rcs[new_index + k],
                    dcs[base + old_len + k],
                )
        },
    }
}

/// The merged diff child list follows the operation list: children appear
/// run by run, in operation order.
pub open spec fn children_follow(
    ops: Seq<AlignOp>,
    lcs: Seq<Element>,
    rcs: Seq<Element>,
    dcs: Seq<DiffNode>,
) -> bool
    decreases lcs, 1int,
{
    &&& dcs.len() == out_count(ops)
    &&& forall|j: int|
        0 <= j < ops.len() ==> op_children_ok(
            #[trigger] ops[j],
            lcs,
            rcs,
            dcs,
            out_count(ops.take(j)),
        )
}

/// `d` replaces `l` by `r` without aligning them: a `Changed` node with a
/// synthetic combined tag whose two children are the left subtree as
/// removed and the right subtree as added.
pub open spec fn is_replaced_of(l: Element, r: Element, d: DiffNode) -> bool {
    &&& d.status == NodeStatus::Changed
    &&& d.tag@ == l.tag@ + " -> "@ + r.tag@
    &&& d.key is None
    &&& opt_str_view(d.left_fragment) == Some(xml_of(l))
    &&& opt_str_view(d.right_fragment) == Some(xml_of(r))
    &&& d.children@.len() == 2
    &&& is_removed_of(l, d.children@[0])
    &&& is_added_of(r, d.children@[1])
}

/// The non-recursive obligations of an aligned node: it keeps the common
/// tag and key, captures both fragments, and is `Unchanged` exactly when
/// its own content matches and every child is `Unchanged`.
pub open spec fn aligned_head_ok(l: Element, r: Element, d: DiffNode) -> bool {
    &&& d.tag@ == l.tag@
    &&& opt_str_view(d.key) == own_key_spec(l)
    &&& opt_str_view(d.left_fragment) == Some(xml_of(l))
    &&& opt_str_view(d.right_fragment) == Some(xml_of(r))
    &&& (d.status == NodeStatus::Unchanged || d.status == NodeStatus::Changed)
    &&& (d.status == NodeStatus::Unchanged <==> content_eq(l, r) && (forall|i: int|
        0 <= i < d.children@.len() ==> (#[trigger] d.children@[i]).status
            == NodeStatus::Unchanged))
}

/// Some complete, minimal-edit key alignment of the two child lists is
/// followed by the merged diff children.
pub open spec fn some_alignment(l: Element, r: Element, d: DiffNode) -> bool
    decreases l, 2int,
{
    exists|ops: Seq<AlignOp>|
        #![all_triggers]
        ops_valid(ops, child_keys(l.children@), child_keys(r.children@)) && min_alignment(
            ops,
            child_keys(l.children@),
            child_keys(r.children@),
        ) && children_follow(ops, l.children@, r.children@, d.children@)
}

/// `d` is a diff of the two present subtrees `l` and `r`.
///
/// Two roots with different keys or different tags are not aligned; they
/// give a replacement node.  Aligned roots satisfy the head obligations
/// and their merged children follow a complete minimal-edit key alignment
/// of the two child lists.
pub open spec fn is_diff_of(l: Element, r: Element, d: DiffNode) -> bool
    decreases l, 3int,
{
    if key_spec(l) != key_spec(r) || l.tag@ != r.tag@ {
        is_replaced_of(l, r, d)
    } else {
        &&& aligned_head_ok(l, r, d)
        &&& some_alignment(l, r, d)
    }
}

/// What the diff engine guarantees for every combination of present and
/// absent sides.
pub open spec fn diff_post(l: Option<Element>, r: Option<Element>, d: DiffNode) -> bool {
    match (l, r) {
        (Some(le), None) => is_removed_of(le, d),
        (None, Some(re)) => is_added_of(re, d),
        (Some(le), Some(re)) => is_diff_of(le, re, d),
        (None, None) => true,
    }
}

/// Relies on similar's `capture_diff_slices` with the Myers algorithm: the
/// returned operations walk both input sequences from front to back without
/// gaps or overlap, every equal run pairs elements that compare equal, and
/// two equal inputs yield equal runs only.  Run without a deadline, Myers
/// yields a shortest edit script, and the compaction and replace passes
/// only merge and shift runs, never changing the number of edited
/// positions — so the result is also a minimal-edit alignment.
#[verifier::external_body]
fn myers_ops(old: &Vec<String>, new: &Vec<String>) -> (ops: Vec<AlignOp>)
    ensures
        ops_valid(ops@, old@.map_values(|s: String| s@), new@.map_values(|s: String| s@)),
        min_alignment(ops@, old@.map_values(|s: String| s@), new@.map_values(|s: String| s@)),
        old@.map_values(|s: String| s@) == new@.map_values(|s: String| s@) ==> forall|j: int|
            0 <= j < ops@.len() ==> ops@[j] is Equal,
{
    similar::capture_diff_slices(similar::Algorithm::Myers, old.as_slice(), new.as_slice())
        .into_iter()
        .map(|op| match op {
            similar::DiffOp::Equal { old_index, new_index, len } =>
                AlignOp::Equal { old_index, new_index, len },
            similar::DiffOp::Delete { old_index, old_len, new_index } =>
                AlignOp::Delete { old_index, old_len, new_index },
            similar::DiffOp::Insert { old_index, new_index, new_len } =>
                AlignOp::Insert { old_index, new_index, new_len },
            similar::DiffOp::Replace { old_index, old_len, new_index, new_len } =>
                AlignOp::Replace { old_index, old_len, new_index, new_len },
        })
        .collect()
}

/// Diffs a subtree against an absent right side.
pub fn diff_removed(e: &Element) -> (d: DiffNode)
    ensures
        is_removed_of(*e, d),
    decreases elem_size(*e),
{
    let mut children: Vec<DiffNode> = Vec::new();
    let n = e.children.len();
    let mut i: usize = 0;
    while i < n
        invariant
            0 <= i <= n,
            n == e.children@.len(),
            children@.len() == i,
            forall|j: int| 0 <= j < i ==> is_removed_of(#[trigger] e.children@[j], children@[j]),
        decreases n - i,
    {
        proof {
            lemma_child_size(e.children@, i as int);
        }
        let c = diff_removed(&e.children[i]);
        children.push(c);
        i += 1;
    }
    DiffNode {
        status: NodeStatus::Removed,
        tag: e.tag.clone(),
        key: own_key(e),
        left_fragment: Some(fragment_of(e)),
        right_fragment: None,
        children,
    }
}

/// Diffs a subtree against an absent left side.
pub fn diff_added(e: &Element) -> (d: DiffNode)
    ensures
        is_added_of(*e, d),
    decreases elem_size(*e),
{
    let mut children: Vec<DiffNode> = Vec::new();
    let n = e.children.len();
    let mut i: usize = 0;
    while i < n
        invariant
            0 <= i <= n,
            n == e.children@.len(),
            children@.len() == i,
            forall|j: int| 0 <= j < i ==> is_added_of(#[trigger] e.children@[j], children@[j]),
        decreases n - i,
    {
        proof {
            lemma_child_size(e.children@, i as int);
        }
        let c = diff_added(&e.children[i]);
        children.push(c);
        i += 1;
    }
    DiffNode {
        status: NodeStatus::Added,
        tag: e.tag.clone(),
        key: own_key(e),
        left_fragment: None,
        right_fragment: Some(fragment_of(e)),
        children,
    }
}

/// Deep equality of two trees forces equal alignment keys, of the roots
/// and of all corresponding children.
proof fn lemma_deep_eq_keys(a: Element, b: Element)
    requires
        elem_deep_eq(a, b),
    ensures
        key_spec(a) == key_spec(b),
        child_keys(a.children@) =~= child_keys(b.children@),
{
    assert forall|i: int| 0 <= i < a.children@.len() implies #[trigger] child_keys(a.children@)[i]
        == child_keys(b.children@)[i] by {
        assert(elem_deep_eq(a.children@[i], b.children@[i]));
    }
}

/// No operation shrinks the produced child count.
proof fn lemma_out_count_nonneg(ops: Seq<AlignOp>)
    ensures
        out_count(ops) >= 0,
    decreases ops.len(),
{
    if ops.len() > 0 {
        lemma_out_count_nonneg(ops.drop_last());
    }
}

/// Pairwise deep-equal child lists carry equal key sequences.
proof fn lemma_child_lists_keys(l: Element, r: Element)
    requires
        child_lists_deep_eq(l, r),
    ensures
        child_keys(l.children@) =~= child_keys(r.children@),
{
    assert forall|i: int| 0 <= i < l.children@.len() implies #[trigger] child_keys(l.children@)[i]
        == child_keys(r.children@)[i] by {
        assert(elem_deep_eq(l.children@[i], r.children@[i]));
    }
}

/// Prefix counts of produced children grow with the prefix.
proof fn lemma_out_count_mono(ops: Seq<AlignOp>, a: int, b: int)
    requires
        0 <= a <= b <= ops.len(),
    ensures
        out_count(ops.take(a)) <= out_count(ops.take(b)),
    decreases b - a,
{
    if a < b {
        lemma_out_count_mono(ops, a, b - 1);
        assert(ops.take(b).drop_last() =~= ops.take(b - 1));
        assert(op_out_len(ops.take(b).last()) >= 0);
    }
}

/// A run that fits inside a child list stays described when the list grows
/// at the end.
proof fn lemma_op_ok_grow(
    op: AlignOp,
    lcs: Seq<Element>,
    rcs: Seq<Element>,
    prev: Seq<DiffNode>,
    next: Seq<DiffNode>,
    base: int,
)
    requires
        op_children_ok(op, lcs, rcs, prev, base),
        0 <= base,
        base + op_out_len(op) <= prev.len(),
        next.len() >= prev.len(),
        forall|m: int| 0 <= m < prev.len() ==> next[m] == prev[m],
    ensures
        op_children_ok(op, lcs, rcs, next, base),
{
    match op {
        AlignOp::Equal { old_index, new_index, len } => {
            assert forall|k: int|
                0 <= k < len && 0 <= old_index + k < lcs.len() && 0 <= new_index + k < rcs.len()
                    && 0 <= base + k < next.len() implies is_diff_of(
                #[trigger] lcs[old_index + k],
                rcs[new_index + k],
                next[base + k],
            ) by {
                assert(base + k < prev.len());
                assert(next[base + k] == prev[base + k]);
            }
        },
        AlignOp::Delete { old_index, old_len, .. } => {
            assert forall|k: int|
                0 <= k < old_len && 0 <= old_index + k < lcs.len() && 0 <= base + k
                    < next.len() implies is_removed_of(
                #[trigger] lcs[old_index + k],
                next[base + k],
            ) by {
                assert(base + k < prev.len());
                assert(next[base + k] == prev[base + k]);
            }
        },
        AlignOp::Insert { new_index, new_len, .. } => {
            assert forall|k: int|
                0 <= k < new_len && 0 <= new_index + k < rcs.len() && 0 <= base + k
                    < next.len() implies is_added_of(#[trigger] rcs[new_index + k], next[base + k]) by {
                assert(base + k < prev.len());
                assert(next[base + k] == prev[base + k]);
            }
        },
        AlignOp::Replace { old_index, old_len, new_index, new_len } => {
            assert forall|k: int|
                0 <= k < old_len && 0 <= old_index + k < lcs.len() && 0 <= base + k
                    < next.len() implies is_removed_of(
                #[trigger] lcs[old_index + k],
                next[base + k],
            ) by {
                assert(base + k < prev.len());
                assert(next[base + k] == prev[base + k]);
            }
            assert forall|k: int|
                0 <= k < new_len && 0 <= new_index + k < rcs.len() && 0 <= base + old_len + k
                    < next.len() implies is_added_of(
                #[trigger] rcs[new_index + k],
                next[base + old_len + k],
            ) by {
                assert(base + old_len + k < prev.len());
                assert(next[base + old_len + k] == prev[base + old_len + k]);
            }
        },
    }
}

/// The alignment keys of each child, as owned strings.
fn child_keys_exec(cs: &Vec<Element>) -> (ks: Vec<String>)
    ensures
        ks@.len() == cs@.len(),
        forall|i: int| 0 <= i < cs@.len() ==> (#[trigger] ks@[i])@ == key_spec(cs@[i]),
{
    let mut ks: Vec<String> = Vec::new();
    let n = cs.len();
    let mut i: usize = 0;
    while i < n
        invariant
            0 <= i <= n,
            n == cs@.len(),
            ks@.len() == i,
            forall|j: int| 0 <= j < i ==> (#[trigger] ks@[j])@ == key_spec(cs@[j]),
        decreases n - i,
    {
        let k = key_of(&cs[i]);
        ks.push(k);
        i += 1;
    }
    ks
}

/// An aligned node assembled from its parts satisfies the diff relation.
proof fn lemma_aligned_diff_node(l: Element, r: Element, d: DiffNode, ops: Seq<AlignOp>)
    requires
        key_spec(l) == key_spec(r),
        l.tag@ == r.tag@,
        d.tag@ == l.tag@,
        opt_str_view(d.key) == own_key_spec(l),
        opt_str_view(d.left_fragment) == Some(xml_of(l)),
        opt_str_view(d.right_fragment) == Some(xml_of(r)),
        d.status == NodeStatus::Unchanged || d.status == NodeStatus::Changed,
        d.status == NodeStatus::Unchanged <==> (content_eq(l, r) && (forall|i: int|
            0 <= i < d.children@.len() ==> (#[trigger] d.children@[i]).status
                == NodeStatus::Unchanged)),
        ops_valid(ops, child_keys(l.children@), child_keys(r.children@)),
        min_alignment(ops, child_keys(l.children@), child_keys(r.children@)),
        children_follow(ops, l.children@, r.children@, d.children@),
    ensures
        is_diff_of(l, r, d),
{
    assert(aligned_head_ok(l, r, d));
    assert(some_alignment(l, r, d)) by {
        assert(ops_valid(ops, child_keys(l.children@), child_keys(r.children@)));
        assert(min_alignment(ops, child_keys(l.children@), child_keys(r.children@)));
        assert(children_follow(ops, l.children@, r.children@, d.children@));
    }
}

/// Diffs two present subtrees.
///
/// Two roots whose keys or tags differ are never aligned: they become a
/// `Changed` node over the left subtree as removed and the right subtree
/// as added.  Aligned roots compare their own content and align their
/// child lists by keys; one changed child, or changed own content, makes
/// the node `Changed`.  Diffing a tree against a deep-equal copy of
/// itself yields a tree that is `Unchanged` everywhere.
#[verifier::rlimit(100)]
pub fn diff_both(l: &Element, r: &Element) -> (d: DiffNode)
    ensures
        is_diff_of(*l, *r, d),
        (key_spec(*l) == key_spec(*r) && l.tag@ == r.tag@ && child_lists_deep_eq(*l, *r)) ==> ({
            &&& d.children@.len() == l.children@.len()
            &&& forall|i: int| 0 <= i < d.children@.len() ==> all_unchanged(#[trigger] d.children@[i])
        }),
        elem_deep_eq(*l, *r) ==> all_unchanged(d),
    decreases elem_size(*l) + elem_size(*r),
{
    let key_l = key_of(l);
    let key_r = key_of(r);
    if !(key_l == key_r) || !(l.tag == r.tag) {
        proof {
            if elem_deep_eq(*l, *r) {
                lemma_deep_eq_keys(*l, *r);
            }
        }
        let mut tag = l.tag.clone();
        tag.append(" -> ");
        tag.append(r.tag.as_str());
        let c0 = diff_removed(l);
        let c1 = diff_added(r);
        let mut children: Vec<DiffNode> = Vec::new();
        children.push(c0);
        children.push(c1);
        let d = DiffNode {
            status: NodeStatus::Changed,
            tag,
            key: None,
            left_fragment: Some(fragment_of(l)),
            right_fragment: Some(fragment_of(r)),
            children,
        };
        return d;
    }
    // The two roots align: compare own content, then align the children.
    let text_ok = opt_text_eq(&l.text, &r.text);
    let attrs_ok = attrs_equal(&l.attributes, &r.attributes);
    let content_ok = text_ok && attrs_ok;
    let lkeys = child_keys_exec(&l.children);
    let rkeys = child_keys_exec(&r.children);
    let ops = myers_ops(&lkeys, &rkeys);
    let nl = l.children.len();
    let nr = r.children.len();
    let ghost okeys = child_keys(l.children@);
    let ghost nkeys = child_keys(r.children@);
    proof {
        assert(lkeys@.map_values(|s: String| s@) =~= okeys);
        assert(rkeys@.map_values(|s: String| s@) =~= nkeys);
        assert(ops_valid(ops@, okeys, nkeys));
        assert(min_alignment(ops@, okeys, nkeys));
        if child_lists_deep_eq(*l, *r) {
            lemma_child_lists_keys(*l, *r);
            assert(okeys == nkeys);
            assert(lkeys@.map_values(|s: String| s@) == rkeys@.map_values(|s: String| s@));
        }
        assert(ops@.skip(0) =~= ops@);
        assert(ops@.take(0) =~= Seq::<AlignOp>::empty());
    }
    let mut children: Vec<DiffNode> = Vec::new();
    let mut any_changed = false;
    let nops = ops.len();
    let mut j: usize = 0;
    let ghost mut oi: int = 0;
    let ghost mut ni: int = 0;
    let ghost mut wit: int = 0;
    while j < nops
        invariant
            0 <= j <= nops,
            nops == ops@.len(),
            nl == l.children@.len(),
            nr == r.children@.len(),
            okeys == child_keys(l.children@),
            nkeys == child_keys(r.children@),
            okeys.len() == nl,
            nkeys.len() == nr,
            0 <= oi,
            0 <= ni,
            ops_valid_from(ops@.skip(j as int), okeys, nkeys, oi, ni),
            children@.len() == out_count(ops@.take(j as int)),
            forall|t: int|
                0 <= t < j ==> op_children_ok(
                    #[trigger] ops@[t],
                    l.children@,
                    r.children@,
                    children@,
                    out_count(ops@.take(t)),
                ),
            !any_changed ==> forall|m: int|
                0 <= m < children@.len() ==> (#[trigger] children@[m]).status
                    == NodeStatus::Unchanged,
            any_changed ==> (0 <= wit < children@.len() && children@[wit].status
                != NodeStatus::Unchanged),
            child_lists_deep_eq(*l, *r) ==> ({
                &&& oi == ni
                &&& children@.len() == oi
                &&& (forall|t: int| 0 <= t < nops ==> #[trigger] ops@[t] is Equal)
                &&& (forall|m: int|
                    0 <= m < children@.len() ==> all_unchanged(#[trigger] children@[m]))
            }),
        decreases nops - j,
    {
        proof {
            lemma_ops_valid_step(ops@, okeys, nkeys, j as int, oi, ni);
        }
        let op = ops[j];
        let ghost base = children@.len() as int;
        let ghost chsnap = children@;
        match op {
            AlignOp::Equal { old_index, new_index, len } => {
                let mut k: usize = 0;
                while k < len
                    invariant
                        0 <= k <= len,
                        nl == l.children@.len(),
                        nr == r.children@.len(),
                        okeys == child_keys(l.children@),
                        nkeys == child_keys(r.children@),
                        okeys.len() == nl,
                        nkeys.len() == nr,
                        0 <= oi,
                        0 <= ni,
                        old_index as int == oi,
                        new_index as int == ni,
                        oi + len <= nl,
                        ni + len <= nr,
                        chsnap.len() == base,
                        children@.len() == base + k,
                        forall|m: int| 0 <= m < base ==> #[trigger] children@[m] == chsnap[m],
                        forall|m: int|
                            0 <= m < k ==> is_diff_of(
                                l.children@[old_index + m],
                                r.children@[new_index + m],
                                #[trigger] children@[base + m],
                            ),
                        !any_changed ==> forall|m: int|
                            0 <= m < children@.len() ==> (#[trigger] children@[m]).status
                                == NodeStatus::Unchanged,
                        any_changed ==> (0 <= wit < children@.len()
                            && children@[wit].status != NodeStatus::Unchanged),
                        child_lists_deep_eq(*l, *r) ==> ({
                            &&& oi == ni
                            &&& base == oi
                            &&& (forall|m: int|
                                0 <= m < children@.len() ==> all_unchanged(
                                    #[trigger] children@[m],
                                ))
                        }),
                    decreases len - k,
                {
                    proof {
                        lemma_child_size(l.children@, old_index + k);
                        lemma_child_size(r.children@, new_index + k);
                        assert(elem_size(*l) == 1 + children_size(l.children@));
                        assert(elem_size(*r) == 1 + children_size(r.children@));
                        if child_lists_deep_eq(*l, *r) {
                            assert(elem_deep_eq(
                                l.children@[old_index + k],
                                r.children@[new_index + k],
                            ));
                        }
                    }
                    let c = diff_both(&l.children[old_index + k], &r.children[new_index + k]);
                    let ghost cg = c;
                    let ghost before = children@;
                    if c.status != NodeStatus::Unchanged {
                        any_changed = true;
                        proof {
                            wit = before.len() as int;
                        }
                    }
                    children.push(c);
                    proof {
                        assert(children@ == before.push(cg));
                        assert(children@[before.len() as int] == cg);
                        assert(forall|m: int|
                            0 <= m < before.len() ==> #[trigger] children@[m] == before[m]);
                    }
                    k += 1;
                }
            },
            AlignOp::Delete { old_index, old_len, .. } => {
                proof {
                    if child_lists_deep_eq(*l, *r) {
                        assert(ops@[j as int] is Equal);
                        assert(false);
                    }
                }
                let mut k: usize = 0;
                while k < old_len
                    invariant
                        0 <= k <= old_len,
                        nl == l.children@.len(),
                        okeys.len() == nl,
                        old_index as int == oi,
                        0 <= oi,
                        oi + old_len <= nl,
                        chsnap.len() == base,
                        children@.len() == base + k,
                        forall|m: int| 0 <= m < base ==> #[trigger] children@[m] == chsnap[m],
                        forall|m: int|
                            0 <= m < k ==> is_removed_of(
                                l.children@[old_index + m],
                                #[trigger] children@[base + m],
                            ),
                        k > 0 ==> any_changed,
                        !any_changed ==> forall|m: int|
                            0 <= m < children@.len() ==> (#[trigger] children@[m]).status
                                == NodeStatus::Unchanged,
                        any_changed ==> (0 <= wit < children@.len()
                            && children@[wit].status != NodeStatus::Unchanged),
                    decreases old_len - k,
                {
                    let c = diff_removed(&l.children[old_index + k]);
                    let ghost cg = c;
                    let ghost before = children@;
                    any_changed = true;
                    proof {
                        wit = before.len() as int;
                    }
                    children.push(c);
                    proof {
                        assert(children@ == before.push(cg));
                        assert(children@[before.len() as int] == cg);
                        assert(cg.status != NodeStatus::Unchanged);
                        assert(forall|m: int|
                            0 <= m < before.len() ==> #[trigger] children@[m] == before[m]);
                    }
                    k += 1;
                }
            },
            AlignOp::Insert { new_index, new_len, .. } => {
                proof {
                    if child_lists_deep_eq(*l, *r) {
                        assert(ops@[j as int] is Equal);
                        assert(false);
                    }
                }
                let mut k: usize = 0;
                while k < new_len
                    invariant
                        0 <= k <= new_len,
                        nr == r.children@.len(),
                        nkeys.len() == nr,
                        new_index as int == ni,
                        0 <= ni,
                        ni + new_len <= nr,
                        chsnap.len() == base,
                        children@.len() == base + k,
                        forall|m: int| 0 <= m < base ==> #[trigger] children@[m] == chsnap[m],
                        forall|m: int|
                            0 <= m < k ==> is_added_of(
                                r.children@[new_index + m],
                                #[trigger] children@[base + m],
                            ),
                        k > 0 ==> any_changed,
                        !any_changed ==> forall|m: int|
                            0 <= m < children@.len() ==> (#[trigger] children@[m]).status
                                == NodeStatus::Unchanged,
                        any_changed ==> (0 <= wit < children@.len()
                            && children@[wit].status != NodeStatus::Unchanged),
                    decreases new_len - k,
                {
                    let c = diff_added(&r.children[new_index + k]);
                    let ghost cg = c;
                    let ghost before = children@;
                    any_changed = true;
                    proof {
                        wit = before.len() as int;
                    }
                    children.push(c);
                    proof {
                        assert(children@ == before.push(cg));
                        assert(children@[before.len() as int] == cg);
                        assert(cg.status != NodeStatus::Unchanged);
                        assert(forall|m: int|
                            0 <= m < before.len() ==> #[trigger] children@[m] == before[m]);
                    }
                    k += 1;
                }
            },
            AlignOp::Replace { old_index, old_len, new_index, new_len } => {
                proof {
                    if child_lists_deep_eq(*l, *r) {
                        assert(ops@[j as int] is Equal);
                        assert(false);
                    }
                }
                let mut k: usize = 0;
                while k < old_len
                    invariant
                        0 <= k <= old_len,
                        nl == l.children@.len(),
                        okeys.len() == nl,
                        old_index as int == oi,
                        0 <= oi,
                        oi + old_len <= nl,
                        chsnap.len() == base,
                        children@.len() == base + k,
                        forall|m: int| 0 <= m < base ==> #[trigger] children@[m] == chsnap[m],
                        forall|m: int|
                            0 <= m < k ==> is_removed_of(
                                l.children@[old_index + m],
                                #[trigger] children@[base + m],
                            ),
                        k > 0 ==> any_changed,
                        !any_changed ==> forall|m: int|
                            0 <= m < children@.len() ==> (#[trigger] children@[m]).status
                                == NodeStatus::Unchanged,
                        any_changed ==> (0 <= wit < children@.len()
                            && children@[wit].status != NodeStatus::Unchanged),
                    decreases old_len - k,
                {
                    let c = diff_removed(&l.children[old_index + k]);
                    let ghost cg = c;
                    let ghost before = children@;
                    any_changed = true;
                    proof {
                        wit = before.len() as int;
                    }
                    children.push(c);
                    proof {
                        assert(children@ == before.push(cg));
                        assert(children@[before.len() as int] == cg);
                        assert(cg.status != NodeStatus::Unchanged);
                        assert(forall|m: int|
                            0 <= m < before.len() ==> #[trigger] children@[m] == before[m]);
                    }
                    k += 1;
                }
                let mut k2: usize = 0;
                while k2 < new_len
                    invariant
                        0 <= k2 <= new_len,
                        nr == r.children@.len(),
                        nkeys.len() == nr,
                        new_index as int == ni,
                        0 <= ni,
                        ni + new_len <= nr,
                        chsnap.len() == base,
                        children@.len() == base + old_len + k2,
                        forall|m: int| 0 <= m < base ==> #[trigger] children@[m] == chsnap[m],
                        forall|m: int|
                            0 <= m < old_len ==> is_removed_of(
                                l.children@[old_index as int + m],
                                #[trigger] children@[base + m],
                            ),
                        forall|m: int|
                            0 <= m < k2 ==> is_added_of(
                                r.children@[new_index + m],
                                #[trigger] children@[base + old_len + m],
                            ),
                        old_len > 0 || k2 > 0 ==> any_changed,
                        !any_changed ==> forall|m: int|
                            0 <= m < children@.len() ==> (#[trigger] children@[m]).status
                                == NodeStatus::Unchanged,
                        any_changed ==> (0 <= wit < children@.len()
                            && children@[wit].status != NodeStatus::Unchanged),
                    decreases new_len - k2,
                {
                    let c = diff_added(&r.children[new_index + k2]);
                    let ghost cg = c;
                    let ghost before = children@;
                    any_changed = true;
                    proof {
                        wit = before.len() as int;
                    }
                    children.push(c);
                    proof {
                        assert(children@ == before.push(cg));
                        assert(children@[before.len() as int] == cg);
                        assert(cg.status != NodeStatus::Unchanged);
                        assert(forall|m: int|
                            0 <= m < before.len() ==> #[trigger] children@[m] == before[m]);
                    }
                    k2 += 1;
                }
            },
        }
        proof {
            let ghost jj = j as int;
            assert(ops@.take(jj + 1).drop_last() =~= ops@.take(jj));
            assert(ops@.take(jj + 1).last() == ops@[jj]);
            assert(children@.len() == out_count(ops@.take(jj + 1)));
            assert forall|t: int| 0 <= t < jj + 1 implies op_children_ok(
                #[trigger] ops@[t],
                l.children@,
                r.children@,
                children@,
                out_count(ops@.take(t)),
            ) by {
                if t < jj {
                    assert(ops@.take(t + 1).drop_last() =~= ops@.take(t));
                    assert(ops@.take(t + 1).last() == ops@[t]);
                    lemma_out_count_nonneg(ops@.take(t));
                    lemma_out_count_mono(ops@, t + 1, jj);
                    lemma_op_ok_grow(
                        ops@[t],
                        l.children@,
                        r.children@,
                        chsnap,
                        children@,
                        out_count(ops@.take(t)),
                    );
                }
            }
            oi = oi + op_old_len(ops@[j as int]);
            ni = ni + op_new_len(ops@[j as int]);
        }
        j += 1;
    }
    proof {
        assert(ops@.take(nops as int) =~= ops@);
        assert(ops@.skip(nops as int) =~= Seq::<AlignOp>::empty());
        assert(oi == okeys.len());
        assert(ni == nkeys.len());
    }
    let status = if content_ok && !any_changed {
        NodeStatus::Unchanged
    } else {
        NodeStatus::Changed
    };
    let d = DiffNode {
        status,
        tag: l.tag.clone(),
        key: own_key(l),
        left_fragment: Some(fragment_of(l)),
        right_fragment: Some(fragment_of(r)),
        children,
    };
    proof {
        assert(children_follow(ops@, l.children@, r.children@, d.children@));
        assert(ops_valid(ops@, child_keys(l.children@), child_keys(r.children@)));
        assert(content_ok == content_eq(*l, *r));
        assert(d.status == NodeStatus::Unchanged ==> content_eq(*l, *r) && (forall|i: int|
            0 <= i < d.children@.len() ==> (#[trigger] d.children@[i]).status
                == NodeStatus::Unchanged));
        assert((content_eq(*l, *r) && (forall|i: int|
            0 <= i < d.children@.len() ==> (#[trigger] d.children@[i]).status
                == NodeStatus::Unchanged)) ==> d.status == NodeStatus::Unchanged);
        lemma_aligned_diff_node(*l, *r, d, ops@);
        if child_lists_deep_eq(*l, *r) {
            assert(d.children@.len() == l.children@.len());
        }
        if elem_deep_eq(*l, *r) {
            assert(child_lists_deep_eq(*l, *r));
            assert(attrs_view(l.attributes@) == attrs_view(r.attributes@));
            assert(content_eq(*l, *r));
            assert(d.status == NodeStatus::Unchanged);
        }
    }
    d
}

/// The element a present side holds, if any.
pub open spec fn opt_elem(o: Option<&Element>) -> Option<Element> {
    match o {
        Some(e) => Some(*e),
        None => None,
    }
}

/// Diffs an optional pair of subtrees: one absent side makes the whole
/// other subtree `Removed` or `Added`; two present sides are aligned.
/// Diffing with both sides absent is a programming error and is excluded.
pub fn diff_elements(left: Option<&Element>, right: Option<&Element>) -> (d: DiffNode)
    requires
        left is Some || right is Some,
    ensures
        diff_post(opt_elem(left), opt_elem(right), d),
        (left matches Some(le) && right matches Some(re) && elem_deep_eq(*le, *re))
            ==> all_unchanged(d),
{
    match (left, right) {
        (Some(l), None) => diff_removed(l),
        (None, Some(r)) => diff_added(r),
        (Some(l), Some(r)) => diff_both(l, r),
        (None, None) => vstd::pervasive::unreached(),
    }
}

/// Diffs two whole documents, given their roots.
pub fn compute_tree_diff(left: &Element, right: &Element) -> (d: DiffNode)
    ensures
        is_diff_of(*left, *right, d),
        (key_spec(*left) == key_spec(*right) && left.tag@ == right.tag@ && child_lists_deep_eq(
            *left,
            *right,
        )) ==> ({
            &&& d.children@.len() == left.children@.len()
            &&& forall|i: int| 0 <= i < d.children@.len() ==> all_unchanged(#[trigger] d.children@[i])
        }),
        elem_deep_eq(*left, *right) ==> all_unchanged(d),
{
    diff_both(left, right)
}

/// Identical shape and labels of two diff trees: same arity, tag and key
/// at every corresponding node.
pub open spec fn same_shape(a: DiffNode, b: DiffNode) -> bool
    decreases a,
{
    &&& a.tag@ == b.tag@
    &&& opt_str_view(a.key) == opt_str_view(b.key)
    &&& a.children@.len() == b.children@.len()
    &&& forall|i: int|
        0 <= i < a.children@.len() ==> same_shape(#[trigger] a.children@[i], b.children@[i])
}

/// Every node of the diff subtree carries the status `st`.
pub open spec fn all_status(d: DiffNode, st: NodeStatus) -> bool
    decreases d,
{
    &&& d.status == st
    &&& forall|i: int| 0 <= i < d.children@.len() ==> all_status(#[trigger] d.children@[i], st)
}

/// Absence symmetry: diffing a subtree against an absent counterpart gives
/// the same tree shape on either side, differing only in status — every
/// node is `Removed` on the one side and `Added` on the other, and the
/// one-sided status is carried by every node regardless of its children.
pub proof fn lemma_absence_symmetry(e: Element, dl: DiffNode, dr: DiffNode)
    requires
        is_removed_of(e, dl),
        is_added_of(e, dr),
    ensures
        same_shape(dl, dr),
        all_status(dl, NodeStatus::Removed),
        all_status(dr, NodeStatus::Added),
    decreases e,
{
    assert forall|i: int| 0 <= i < dl.children@.len() implies same_shape(
        #[trigger] dl.children@[i],
        dr.children@[i],
    ) && all_status(dl.children@[i], NodeStatus::Removed) by {
        assert(is_removed_of(e.children@[i], dl.children@[i]));
        assert(is_added_of(e.children@[i], dr.children@[i]));
        lemma_absence_symmetry(e.children@[i], dl.children@[i], dr.children@[i]);
    }
    assert forall|i: int| 0 <= i < dr.children@.len() implies all_status(
        #[trigger] dr.children@[i],
        NodeStatus::Added,
    ) by {
        assert(is_removed_of(e.children@[i], dl.children@[i]));
        assert(is_added_of(e.children@[i], dr.children@[i]));
        lemma_absence_symmetry(e.children@[i], dl.children@[i], dr.children@[i]);
    }
}

/// Status monotonicity at an aligned node: it is `Unchanged` exactly when
/// its own content matches and every child is `Unchanged`; one child that
/// is not `Unchanged` forces `Changed`.
pub proof fn lemma_status_monotonic(l: Element, r: Element, d: DiffNode)
    requires
        is_diff_of(l, r, d),
        key_spec(l) == key_spec(r),
        l.tag@ == r.tag@,
    ensures
        d.status == NodeStatus::Unchanged <==> (content_eq(l, r) && forall|i: int|
            0 <= i < d.children@.len() ==> (#[trigger] d.children@[i]).status
                == NodeStatus::Unchanged),
        (exists|i: int|
            0 <= i < d.children@.len() && (#[trigger] d.children@[i]).status
                != NodeStatus::Unchanged) ==> d.status == NodeStatus::Changed,
{
}


/// One-sided statuses dominate: an `Added` or `Removed` node carries its
/// status down to every descendant; no child ever rewrites it.
pub open spec fn one_sided_dominates(d: DiffNode) -> bool
    decreases d,
{
    &&& (d.status == NodeStatus::Added ==> all_status(d, NodeStatus::Added))
    &&& (d.status == NodeStatus::Removed ==> all_status(d, NodeStatus::Removed))
    &&& forall|i: int|
        0 <= i < d.children@.len() ==> one_sided_dominates(#[trigger] d.children@[i])
}

/// A removed subtree is `Removed` at every node, whatever its children.
pub proof fn lemma_removed_dominates(e: Element, d: DiffNode)
    requires
        is_removed_of(e, d),
    ensures
        all_status(d, NodeStatus::Removed),
        one_sided_dominates(d),
    decreases e,
{
    assert forall|i: int| 0 <= i < d.children@.len() implies all_status(
        #[trigger] d.children@[i],
        NodeStatus::Removed,
    ) && one_sided_dominates(d.children@[i]) by {
        assert(is_removed_of(e.children@[i], d.children@[i]));
        lemma_removed_dominates(e.children@[i], d.children@[i]);
    }
}

/// An added subtree is `Added` at every node, whatever its children.
pub proof fn lemma_added_dominates(e: Element, d: DiffNode)
    requires
        is_added_of(e, d),
    ensures
        all_status(d, NodeStatus::Added),
        one_sided_dominates(d),
    decreases e,
{
    assert forall|i: int| 0 <= i < d.children@.len() implies all_status(
        #[trigger] d.children@[i],
        NodeStatus::Added,
    ) && one_sided_dominates(d.children@[i]) by {
        assert(is_added_of(e.children@[i], d.children@[i]));
        lemma_added_dominates(e.children@[i], d.children@[i]);
    }
}

/// Every produced child position falls inside exactly one operation's run.
proof fn lemma_out_pos(ops: Seq<AlignOp>, m: int)
    requires
        0 <= m < out_count(ops),
    ensures
        exists|t: int|
            0 <= t < ops.len() && #[trigger] out_count(ops.take(t)) <= m < out_count(ops.take(t))
                + op_out_len(ops[t]),
    decreases ops.len(),
{
    if ops.len() > 0 {
        if m < out_count(ops.drop_last()) {
            lemma_out_pos(ops.drop_last(), m);
            let t = choose|t: int|
                0 <= t < ops.drop_last().len() && #[trigger] out_count(ops.drop_last().take(t))
                    <= m < out_count(ops.drop_last().take(t)) + op_out_len(ops.drop_last()[t]);
            assert(ops.drop_last().take(t) =~= ops.take(t));
            assert(ops.drop_last()[t] == ops[t]);
            assert(out_count(ops.take(t)) <= m < out_count(ops.take(t)) + op_out_len(ops[t]));
        } else {
            let t = ops.len() - 1;
            assert(ops.take(t) =~= ops.drop_last());
            assert(out_count(ops.take(t)) <= m < out_count(ops.take(t)) + op_out_len(ops[t]));
        }
    }
}

/// One child of an aligned node, at position `m` of the merged list, is
/// itself a tree in which one-sided statuses dominate.
proof fn lemma_child_one_sided(
    ops: Seq<AlignOp>,
    lcs: Seq<Element>,
    rcs: Seq<Element>,
    dcs: Seq<DiffNode>,
    m: int,
)
    requires
        ops_valid(ops, child_keys(lcs), child_keys(rcs)),
        children_follow(ops, lcs, rcs, dcs),
        0 <= m < dcs.len(),
    ensures
        one_sided_dominates(dcs[m]),
    decreases lcs, 0int,
{
    let okeys = child_keys(lcs);
    let nkeys = child_keys(rcs);
    assert(dcs.len() == out_count(ops));
    lemma_out_pos(ops, m);
    let t = choose|t: int|
        0 <= t < ops.len() && #[trigger] out_count(ops.take(t)) <= m < out_count(ops.take(t))
            + op_out_len(ops[t]);
    let base = out_count(ops.take(t));
    lemma_valid_at_exact(ops, okeys, nkeys, 0, 0, t);
    assert(op_children_ok(ops[t], lcs, rcs, dcs, base));
    match ops[t] {
        AlignOp::Equal { old_index, new_index, len } => {
            let k = m - base;
            assert(old_index + k < lcs.len() && new_index + k < rcs.len());
            assert(is_diff_of(lcs[old_index + k], rcs[new_index + k], dcs[base + k]));
            lemma_one_sided_dominates(lcs[old_index + k], rcs[new_index + k], dcs[base + k]);
        },
        AlignOp::Delete { old_index, old_len, .. } => {
            let k = m - base;
            assert(old_index + k < lcs.len());
            assert(is_removed_of(lcs[old_index + k], dcs[base + k]));
            lemma_removed_dominates(lcs[old_index + k], dcs[base + k]);
        },
        AlignOp::Insert { new_index, new_len, .. } => {
            let k = m - base;
            assert(new_index + k < rcs.len());
            assert(is_added_of(rcs[new_index + k], dcs[base + k]));
            lemma_added_dominates(rcs[new_index + k], dcs[base + k]);
        },
        AlignOp::Replace { old_index, old_len, new_index, new_len } => {
            let k = m - base;
            if k < old_len {
                assert(old_index + k < lcs.len());
                assert(is_removed_of(lcs[old_index + k], dcs[base + k]));
                lemma_removed_dominates(lcs[old_index + k], dcs[base + k]);
            } else {
                let k2 = k - old_len;
                assert(new_index + k2 < rcs.len());
                assert(is_added_of(rcs[new_index + k2], dcs[base + old_len + k2]));
                lemma_added_dominates(rcs[new_index + k2], dcs[base + old_len + k2]);
            }
        },
    }
}

/// One-sided absence dominates in every tree the engine produces: inside
/// a diff of two present subtrees, each `Added` or `Removed` node has all
/// its descendants carrying the same status — a changed child never
/// rewrites a one-sided ancestor to `Changed`.
pub proof fn lemma_one_sided_dominates(l: Element, r: Element, d: DiffNode)
    requires
        is_diff_of(l, r, d),
    ensures
        one_sided_dominates(d),
    decreases l, 1int,
{
    if key_spec(l) != key_spec(r) || l.tag@ != r.tag@ {
        lemma_removed_dominates(l, d.children@[0]);
        lemma_added_dominates(r, d.children@[1]);
        assert forall|i: int| 0 <= i < d.children@.len() implies one_sided_dominates(
            #[trigger] d.children@[i],
        ) by {
            if i == 0 {
                assert(one_sided_dominates(d.children@[0]));
            } else {
                assert(one_sided_dominates(d.children@[1]));
            }
        }
    } else {
        let ops = choose|ops: Seq<AlignOp>|
            #![all_triggers]
            ops_valid(ops, child_keys(l.children@), child_keys(r.children@)) && min_alignment(
                ops,
                child_keys(l.children@),
                child_keys(r.children@),
            ) && children_follow(ops, l.children@, r.children@, d.children@);
        assert(ops_valid(ops, child_keys(l.children@), child_keys(r.children@)));
        assert(children_follow(ops, l.children@, r.children@, d.children@));
        assert forall|m: int| 0 <= m < d.children@.len() implies one_sided_dominates(
            #[trigger] d.children@[m],
        ) by {
            lemma_child_one_sided(ops, l.children@, r.children@, d.children@, m);
        }
    }
}


/// Positions of the old sequence consumed by a whole operation list.
pub open spec fn old_total(ops: Seq<AlignOp>) -> int
    decreases ops.len(),
{
    if ops.len() == 0 {
        0
    } else {
        old_total(ops.drop_last()) + op_old_len(ops.last())
    }
}

/// Positions of the new sequence consumed by a whole operation list.
pub open spec fn new_total(ops: Seq<AlignOp>) -> int
    decreases ops.len(),
{
    if ops.len() == 0 {
        0
    } else {
        new_total(ops.drop_last()) + op_new_len(ops.last())
    }
}

/// The pairing width of one operation: an equal run pairs `len`
/// positions, anything else pairs none.
pub open spec fn op_eq_len(op: AlignOp) -> int {
    match op {
        AlignOp::Equal { len, .. } => len as int,
        _ => 0,
    }
}

/// The total number of paired positions of a whole operation list.
pub open spec fn eq_pairs(ops: Seq<AlignOp>) -> int
    decreases ops.len(),
{
    if ops.len() == 0 {
        0
    } else {
        eq_pairs(ops.drop_last()) + op_eq_len(ops.last())
    }
}

proof fn lemma_old_total_head(ops: Seq<AlignOp>)
    requires
        ops.len() > 0,
    ensures
        old_total(ops) == op_old_len(ops[0]) + old_total(ops.drop_first()),
        new_total(ops) == op_new_len(ops[0]) + new_total(ops.drop_first()),
    decreases ops.len(),
{
    if ops.len() == 1 {
        assert(ops.drop_last() =~= Seq::<AlignOp>::empty());
        assert(ops.drop_first() =~= Seq::<AlignOp>::empty());
        assert(ops.last() == ops[0]);
    } else {
        lemma_old_total_head(ops.drop_last());
        assert(ops.drop_last()[0] == ops[0]);
        assert(ops.drop_last().drop_first() =~= ops.drop_first().drop_last());
        assert(ops.drop_first().last() == ops.last());
    }
}

/// Along a complete walk the consumed totals close the gap to the two
/// sequence ends, and the edited positions are exactly the consumed ones
/// that no equal run pairs.
proof fn lemma_walk_totals(
    ops: Seq<AlignOp>,
    okeys: Seq<Seq<char>>,
    nkeys: Seq<Seq<char>>,
    oi: int,
    ni: int,
)
    requires
        ops_valid_from(ops, okeys, nkeys, oi, ni),
    ensures
        oi + old_total(ops) == okeys.len(),
        ni + new_total(ops) == nkeys.len(),
    decreases ops.len(),
{
    if ops.len() > 0 {
        lemma_old_total_head(ops);
        lemma_walk_totals(
            ops.drop_first(),
            okeys,
            nkeys,
            oi + op_old_len(ops[0]),
            ni + op_new_len(ops[0]),
        );
    }
}

/// Edited positions are the consumed positions minus the paired ones, and
/// every consumed position except the paired duplicates gives one child.
proof fn lemma_cost_identity(ops: Seq<AlignOp>)
    ensures
        edit_cost(ops) == old_total(ops) + new_total(ops) - 2 * eq_pairs(ops),
        out_count(ops) == old_total(ops) + new_total(ops) - eq_pairs(ops),
        eq_pairs(ops) >= 0,
        edit_cost(ops) >= 0,
    decreases ops.len(),
{
    if ops.len() > 0 {
        lemma_cost_identity(ops.drop_last());
    }
}

/// A walk without edited positions edits nothing anywhere.
proof fn lemma_no_edits(ops: Seq<AlignOp>)
    requires
        edit_cost(ops) == 0,
    ensures
        forall|t: int| 0 <= t < ops.len() ==> #[trigger] op_edit_len(ops[t]) == 0,
    decreases ops.len(),
{
    if ops.len() > 0 {
        lemma_cost_identity(ops.drop_last());
        lemma_no_edits(ops.drop_last());
        assert forall|t: int| 0 <= t < ops.len() implies #[trigger] op_edit_len(ops[t]) == 0 by {
            if t < ops.len() - 1 {
                assert(ops.drop_last()[t] == ops[t]);
            }
        }
    }
}

/// Operations that edit nothing consume both sides in lock step.
proof fn lemma_balanced_totals(ops: Seq<AlignOp>)
    requires
        forall|t: int| 0 <= t < ops.len() ==> #[trigger] op_edit_len(ops[t]) == 0,
    ensures
        old_total(ops) == new_total(ops),
    decreases ops.len(),
{
    if ops.len() > 0 {
        assert(forall|t: int|
            0 <= t < ops.drop_last().len() ==> #[trigger] op_edit_len(ops.drop_last()[t]) == 0);
        lemma_balanced_totals(ops.drop_last());
        assert(op_edit_len(ops[ops.len() - 1]) == 0);
    }
}

/// One operation extends every prefix total by its own contribution.
proof fn lemma_prefix_step(ops: Seq<AlignOp>, t: int)
    requires
        0 <= t < ops.len(),
    ensures
        old_total(ops.take(t + 1)) == old_total(ops.take(t)) + op_old_len(ops[t]),
        new_total(ops.take(t + 1)) == new_total(ops.take(t)) + op_new_len(ops[t]),
        eq_pairs(ops.take(t + 1)) == eq_pairs(ops.take(t)) + op_eq_len(ops[t]),
        out_count(ops.take(t + 1)) == out_count(ops.take(t)) + op_out_len(ops[t]),
{
    assert(ops.take(t + 1).drop_last() =~= ops.take(t));
    assert(ops.take(t + 1).last() == ops[t]);
}

/// Prefix totals only grow with the prefix.
proof fn lemma_totals_mono(ops: Seq<AlignOp>, a: int, b: int)
    requires
        0 <= a <= b <= ops.len(),
    ensures
        old_total(ops.take(a)) <= old_total(ops.take(b)),
        new_total(ops.take(a)) <= new_total(ops.take(b)),
        eq_pairs(ops.take(a)) <= eq_pairs(ops.take(b)),
    decreases b - a,
{
    if a < b {
        lemma_totals_mono(ops, a, b - 1);
        lemma_prefix_step(ops, b - 1);
    }
}

/// The running positions before operation `t` are exactly the prefix
/// totals of what was consumed so far.
proof fn lemma_valid_at_exact(
    ops: Seq<AlignOp>,
    okeys: Seq<Seq<char>>,
    nkeys: Seq<Seq<char>>,
    oi: int,
    ni: int,
    t: int,
)
    requires
        ops_valid_from(ops, okeys, nkeys, oi, ni),
        0 <= t < ops.len(),
    ensures
        op_shape_ok(
            ops[t],
            okeys,
            nkeys,
            oi + old_total(ops.take(t)),
            ni + new_total(ops.take(t)),
        ),
    decreases t,
{
    if t == 0 {
        assert(ops.take(0) =~= Seq::<AlignOp>::empty());
    } else {
        lemma_valid_at_exact(
            ops.drop_first(),
            okeys,
            nkeys,
            oi + op_old_len(ops[0]),
            ni + op_new_len(ops[0]),
            t - 1,
        );
        assert(ops.drop_first()[t - 1] == ops[t]);
        lemma_old_total_head(ops.take(t));
        assert(ops.take(t)[0] == ops[0]);
        assert(ops.take(t).drop_first() =~= ops.drop_first().take(t - 1));
    }
}

/// A list that pairs nothing anywhere has pairing total zero.
proof fn lemma_eq_pairs_zero(ops: Seq<AlignOp>)
    requires
        forall|t: int| 0 <= t < ops.len() ==> #[trigger] op_eq_len(ops[t]) == 0,
    ensures
        eq_pairs(ops) == 0,
    decreases ops.len(),
{
    if ops.len() > 0 {
        assert(forall|t: int|
            0 <= t < ops.drop_last().len() ==> #[trigger] op_eq_len(ops.drop_last()[t]) == 0);
        lemma_eq_pairs_zero(ops.drop_last());
        assert(op_eq_len(ops[ops.len() - 1]) == 0);
    }
}

/// A list whose only pairing operation is the one at `tstar` has exactly
/// that operation's pairing total.
proof fn lemma_eq_pairs_single(ops: Seq<AlignOp>, tstar: int)
    requires
        0 <= tstar < ops.len(),
        forall|t: int| 0 <= t < ops.len() && t != tstar ==> #[trigger] op_eq_len(ops[t]) == 0,
    ensures
        eq_pairs(ops) == op_eq_len(ops[tstar]),
    decreases ops.len(),
{
    if tstar == ops.len() - 1 {
        assert(forall|t: int|
            0 <= t < ops.drop_last().len() ==> #[trigger] op_eq_len(ops.drop_last()[t]) == 0);
        lemma_eq_pairs_zero(ops.drop_last());
    } else {
        assert(forall|t: int|
            0 <= t < ops.drop_last().len() && t != tstar ==> #[trigger] op_eq_len(
                ops.drop_last()[t],
            ) == 0);
        lemma_eq_pairs_single(ops.drop_last(), tstar);
        assert(ops.drop_last()[tstar] == ops[tstar]);
        assert(op_eq_len(ops[ops.len() - 1]) == 0);
    }
}

/// A walk that pairs at least one position holds an equal run of width
/// at least one.
proof fn lemma_some_pair(ops: Seq<AlignOp>)
    requires
        eq_pairs(ops) >= 1,
    ensures
        exists|t: int| 0 <= t < ops.len() && #[trigger] op_eq_len(ops[t]) >= 1,
    decreases ops.len(),
{
    if ops.len() > 0 {
        if op_eq_len(ops.last()) >= 1 {
            assert(op_eq_len(ops[ops.len() - 1]) >= 1);
        } else {
            lemma_some_pair(ops.drop_last());
            let t = choose|t: int|
                0 <= t < ops.drop_last().len() && #[trigger] op_eq_len(ops.drop_last()[t]) >= 1;
            assert(op_eq_len(ops[t]) >= 1);
        }
    }
}


/// Alignment on keyed siblings, the tie-break policy at contract level:
/// with left child keys `[a, b]` and right child keys `[b, c]`, the three
/// pairwise distinct, the merged children are exactly three — the
/// `a`-child removed, the two `b`-children aligned against each other,
/// and the `c`-child added, in that order.  The shared key is never torn
/// into a removal paired with an addition; when the two `b`-children are
/// deep-equal, `lemma_deep_eq_unchanged` makes the middle child
/// `Unchanged` throughout.
#[verifier::rlimit(100)]
pub proof fn lemma_keyed_sibling_alignment(l: Element, r: Element, d: DiffNode)
    requires
        is_diff_of(l, r, d),
        key_spec(l) == key_spec(r),
        l.tag@ == r.tag@,
        l.children@.len() == 2,
        r.children@.len() == 2,
        key_spec(l.children@[1]) == key_spec(r.children@[0]),
        key_spec(l.children@[0]) != key_spec(r.children@[0]),
        key_spec(l.children@[0]) != key_spec(r.children@[1]),
        key_spec(l.children@[1]) != key_spec(r.children@[1]),
    ensures
        d.children@.len() == 3,
        is_removed_of(l.children@[0], d.children@[0]),
        is_diff_of(l.children@[1], r.children@[0], d.children@[1]),
        is_added_of(r.children@[1], d.children@[2]),
{
    let lcs = l.children@;
    let rcs = r.children@;
    let dcs = d.children@;
    let okeys = child_keys(lcs);
    let nkeys = child_keys(rcs);
    assert(okeys[0] == key_spec(lcs[0]));
    assert(okeys[1] == key_spec(lcs[1]));
    assert(nkeys[0] == key_spec(rcs[0]));
    assert(nkeys[1] == key_spec(rcs[1]));
    let ops = choose|ops: Seq<AlignOp>|
        #![all_triggers]
        ops_valid(ops, okeys, nkeys) && min_alignment(ops, okeys, nkeys) && children_follow(
            ops,
            lcs,
            rcs,
            dcs,
        );
    assert(ops_valid(ops, okeys, nkeys));
    assert(children_follow(ops, lcs, rcs, dcs));
    // A witness walk with two edited positions bounds the minimum.
    let w0 = AlignOp::Delete { old_index: 0, old_len: 1, new_index: 0 };
    let w1 = AlignOp::Equal { old_index: 1, new_index: 0, len: 1 };
    let w2 = AlignOp::Insert { old_index: 2, new_index: 1, new_len: 1 };
    let w: Seq<AlignOp> = seq![w0, w1, w2];
    assert(ops_valid(w, okeys, nkeys)) by {
        reveal_with_fuel(ops_valid_from, 5);
        assert(w.drop_first() =~= seq![w1, w2]);
        assert(w.drop_first().drop_first() =~= seq![w2]);
        assert(w.drop_first().drop_first().drop_first() =~= Seq::<AlignOp>::empty());
        assert(okeys[1] == nkeys[0]);
    }
    assert(edit_cost(w) == 2) by {
        reveal_with_fuel(edit_cost, 5);
        assert(w.drop_last() =~= seq![w0, w1]);
        assert(w.drop_last().drop_last() =~= seq![w0]);
        assert(w.drop_last().drop_last().drop_last() =~= Seq::<AlignOp>::empty());
    }
    assert(edit_cost(ops) <= 2);
    lemma_walk_totals(ops, okeys, nkeys, 0, 0);
    lemma_cost_identity(ops);
    assert(old_total(ops) == 2 && new_total(ops) == 2);
    assert(eq_pairs(ops) >= 1);
    // Every pairing operation pairs the one possible pair: old position
    // one against new position zero, width one.
    assert forall|t: int|
        0 <= t < ops.len() && #[trigger] op_eq_len(ops[t]) >= 1 implies (old_total(ops.take(t))
        == 1 && new_total(ops.take(t)) == 0 && op_eq_len(ops[t]) == 1 && op_old_len(ops[t]) == 1
        && op_new_len(ops[t]) == 1) by {
        lemma_valid_at_exact(ops, okeys, nkeys, 0, 0, t);
        lemma_totals_mono(ops, 0, t);
        assert(ops.take(0) =~= Seq::<AlignOp>::empty());
        let po = old_total(ops.take(t));
        let pn = new_total(ops.take(t));
        match ops[t] {
            AlignOp::Equal { old_index, new_index, len } => {
                assert(okeys[po + 0] == nkeys[pn + 0]);
                assert(po == 1 && pn == 0);
            },
            _ => {
                assert(false);
            },
        }
    }
    lemma_some_pair(ops);
    let tstar = choose|t: int| 0 <= t < ops.len() && #[trigger] op_eq_len(ops[t]) >= 1;
    // And only one operation pairs: a second one would need the same
    // one-position prefix on both sides of a consuming operation.
    assert forall|t: int| 0 <= t < ops.len() && t != tstar implies #[trigger] op_eq_len(ops[t])
        == 0 by {
        if op_eq_len(ops[t]) >= 1 {
            if t < tstar {
                lemma_prefix_step(ops, t);
                lemma_totals_mono(ops, t + 1, tstar);
                assert(false);
            } else {
                lemma_prefix_step(ops, tstar);
                lemma_totals_mono(ops, tstar + 1, t);
                assert(false);
            }
        }
    }
    lemma_eq_pairs_single(ops, tstar);
    assert(eq_pairs(ops) == 1);
    assert(out_count(ops) == 3);
    assert(dcs.len() == 3);
    // The pairing operation emits the aligned pair at merged position one.
    assert(forall|t: int|
        0 <= t < ops.take(tstar).len() ==> #[trigger] op_eq_len(ops.take(tstar)[t]) == 0);
    lemma_eq_pairs_zero(ops.take(tstar));
    lemma_cost_identity(ops.take(tstar));
    assert(out_count(ops.take(tstar)) == 1);
    lemma_valid_at_exact(ops, okeys, nkeys, 0, 0, tstar);
    assert(op_children_ok(ops[tstar], lcs, rcs, dcs, 1));
    match ops[tstar] {
        AlignOp::Equal { old_index, new_index, len } => {
            assert(old_index as int == 1 && new_index as int == 0);
            assert(is_diff_of(lcs[old_index + 0], rcs[new_index + 0], dcs[1int + 0]));
        },
        _ => {
            assert(false);
        },
    }
    assert(is_diff_of(lcs[1], rcs[0], dcs[1]));
    // Merged position zero comes from an operation before the pair that
    // consumes the old side from position zero: the removed a-child.
    lemma_out_pos(ops, 0);
    let t0 = choose|t: int|
        0 <= t < ops.len() && #[trigger] out_count(ops.take(t)) <= 0 < out_count(ops.take(t))
            + op_out_len(ops[t]);
    lemma_out_count_nonneg(ops.take(t0));
    assert(out_count(ops.take(t0)) == 0);
    if t0 > tstar {
        lemma_prefix_step(ops, tstar);
        lemma_out_count_mono(ops, tstar + 1, t0);
        assert(false);
    }
    assert(t0 < tstar);
    lemma_totals_mono(ops, 0, t0);
    assert(ops.take(0) =~= Seq::<AlignOp>::empty());
    lemma_prefix_step(ops, t0);
    lemma_totals_mono(ops, t0 + 1, tstar);
    assert(new_total(ops.take(t0)) == 0 && op_new_len(ops[t0]) == 0);
    assert(op_eq_len(ops[t0]) == 0);
    assert(old_total(ops.take(t0)) == 0) by {
        if old_total(ops.take(t0)) >= 1 {
            assert(op_old_len(ops[t0]) >= 1);
            assert(old_total(ops.take(tstar)) >= 2);
            assert(false);
        }
    }
    lemma_valid_at_exact(ops, okeys, nkeys, 0, 0, t0);
    assert(op_children_ok(ops[t0], lcs, rcs, dcs, 0));
    match ops[t0] {
        AlignOp::Delete { old_index, old_len, .. } => {
            assert(old_index as int == 0);
            assert(is_removed_of(lcs[old_index + 0], dcs[0int + 0]));
        },
        AlignOp::Replace { old_index, old_len, new_index, new_len } => {
            assert(old_index as int == 0);
            assert(new_len == 0 && old_len >= 1);
            assert(is_removed_of(lcs[old_index + 0], dcs[0int + 0]));
        },
        _ => {
            assert(false);
        },
    }
    assert(is_removed_of(lcs[0], dcs[0]));
    // Merged position two comes from an operation after the pair with the
    // old side exhausted: the added c-child.
    lemma_out_pos(ops, 2);
    let t2 = choose|t: int|
        0 <= t < ops.len() && #[trigger] out_count(ops.take(t)) <= 2 < out_count(ops.take(t))
            + op_out_len(ops[t]);
    if t2 < tstar {
        lemma_prefix_step(ops, t2);
        lemma_out_count_mono(ops, t2 + 1, tstar);
        assert(false);
    }
    if t2 == tstar {
        assert(false);
    }
    assert(t2 > tstar);
    lemma_prefix_step(ops, tstar);
    lemma_totals_mono(ops, tstar + 1, t2);
    lemma_totals_mono(ops, t2, ops.len() as int);
    assert(ops.take(ops.len() as int) =~= ops);
    assert(old_total(ops.take(t2)) == 2);
    assert(forall|t: int|
        0 <= t < ops.take(t2).len() && t != tstar ==> #[trigger] op_eq_len(ops.take(t2)[t]) == 0);
    assert(ops.take(t2)[tstar] == ops[tstar]);
    lemma_eq_pairs_single(ops.take(t2), tstar);
    lemma_cost_identity(ops.take(t2));
    let pn2 = new_total(ops.take(t2));
    let b2 = out_count(ops.take(t2));
    assert(b2 == 1 + pn2);
    let k2 = 2 - b2;
    lemma_valid_at_exact(ops, okeys, nkeys, 0, 0, t2);
    assert(op_children_ok(ops[t2], lcs, rcs, dcs, b2));
    assert(op_eq_len(ops[t2]) == 0);
    match ops[t2] {
        AlignOp::Insert { new_index, new_len, .. } => {
            assert(new_index as int == pn2);
            assert(pn2 + k2 == 1);
            assert(is_added_of(rcs[new_index + k2], dcs[b2 + k2]));
        },
        AlignOp::Replace { old_index, old_len, new_index, new_len } => {
            assert(old_index as int == 2);
            assert(old_len == 0);
            assert(new_index as int == pn2);
            assert(pn2 + k2 == 1);
            assert(is_added_of(rcs[new_index + k2], dcs[b2 + 0 + k2]));
        },
        _ => {
            assert(false);
        },
    }
    assert(is_added_of(rcs[1], dcs[2]));
}


/// One child of an aligned node whose walk edits nothing is the diff of
/// a deep-equal pair, hence unchanged throughout.
proof fn lemma_child_unchanged(
    ops: Seq<AlignOp>,
    lcs: Seq<Element>,
    rcs: Seq<Element>,
    dcs: Seq<DiffNode>,
    m: int,
)
    requires
        ops_valid(ops, child_keys(lcs), child_keys(rcs)),
        children_follow(ops, lcs, rcs, dcs),
        edit_cost(ops) == 0,
        lcs.len() == rcs.len(),
        forall|i: int| 0 <= i < lcs.len() ==> elem_deep_eq(#[trigger] lcs[i], rcs[i]),
        0 <= m < dcs.len(),
    ensures
        all_unchanged(dcs[m]),
    decreases lcs, 0int,
{
    let okeys = child_keys(lcs);
    let nkeys = child_keys(rcs);
    lemma_no_edits(ops);
    assert(dcs.len() == out_count(ops));
    lemma_out_pos(ops, m);
    let t = choose|t: int|
        0 <= t < ops.len() && #[trigger] out_count(ops.take(t)) <= m < out_count(ops.take(t))
            + op_out_len(ops[t]);
    let base = out_count(ops.take(t));
    lemma_valid_at_exact(ops, okeys, nkeys, 0, 0, t);
    assert(forall|u: int|
        0 <= u < ops.take(t).len() ==> #[trigger] op_edit_len(ops.take(t)[u]) == 0);
    lemma_balanced_totals(ops.take(t));
    assert(op_children_ok(ops[t], lcs, rcs, dcs, base));
    match ops[t] {
        AlignOp::Equal { old_index, new_index, len } => {
            let k = m - base;
            assert(old_index as int == new_index as int);
            assert(old_index + k < lcs.len() && new_index + k < rcs.len());
            assert(elem_deep_eq(lcs[old_index + k], rcs[new_index + k]));
            assert(is_diff_of(lcs[old_index + k], rcs[new_index + k], dcs[base + k]));
            lemma_deep_eq_unchanged(lcs[old_index + k], rcs[new_index + k], dcs[base + k]);
        },
        _ => {
            assert(op_edit_len(ops[t]) == 0);
            assert(op_out_len(ops[t]) == 0);
            assert(false);
        },
    }
}

/// Idempotence at the relation level: any diff of two deep-equal present
/// subtrees is `Unchanged` at every node, whichever minimal alignment its
/// merged children follow.
#[verifier::rlimit(100)]
pub proof fn lemma_deep_eq_unchanged(x: Element, y: Element, dd: DiffNode)
    requires
        is_diff_of(x, y, dd),
        elem_deep_eq(x, y),
    ensures
        all_unchanged(dd),
    decreases x, 1int,
{
    lemma_deep_eq_keys(x, y);
    let lcs = x.children@;
    let rcs = y.children@;
    let dcs = dd.children@;
    let okeys = child_keys(lcs);
    let nkeys = child_keys(rcs);
    assert(okeys == nkeys);
    let ops = choose|ops: Seq<AlignOp>|
        #![all_triggers]
        ops_valid(ops, okeys, nkeys) && min_alignment(ops, okeys, nkeys) && children_follow(
            ops,
            lcs,
            rcs,
            dcs,
        );
    assert(ops_valid(ops, okeys, nkeys));
    assert(children_follow(ops, lcs, rcs, dcs));
    // A walk that pairs everything edits nothing, so the minimum is zero.
    assert(lcs.len() <= usize::MAX) by {
        assert(lcs.len() == x.children.len());
    }
    if lcs.len() == 0 {
        let w = Seq::<AlignOp>::empty();
        assert(ops_valid(w, okeys, nkeys));
        assert(edit_cost(w) == 0);
        assert(edit_cost(ops) <= 0);
    } else {
        let w: Seq<AlignOp> = seq![
            AlignOp::Equal { old_index: 0, new_index: 0, len: lcs.len() as usize },
        ];
        assert(ops_valid(w, okeys, nkeys)) by {
            reveal_with_fuel(ops_valid_from, 3);
            assert(w.drop_first() =~= Seq::<AlignOp>::empty());
            assert(forall|k: int| 0 <= k < lcs.len() ==> #[trigger] okeys[0 + k] == nkeys[0 + k]);
        }
        assert(edit_cost(w) == 0) by {
            reveal_with_fuel(edit_cost, 3);
            assert(w.drop_last() =~= Seq::<AlignOp>::empty());
        }
        assert(edit_cost(ops) <= 0);
    }
    lemma_cost_identity(ops);
    assert(edit_cost(ops) == 0);
    assert forall|m: int| 0 <= m < dcs.len() implies all_unchanged(#[trigger] dcs[m]) by {
        lemma_child_unchanged(ops, lcs, rcs, dcs, m);
    }
    assert(content_eq(x, y));
    assert(forall|i: int|
        0 <= i < dcs.len() ==> (#[trigger] dcs[i]).status == NodeStatus::Unchanged);
    assert(dd.status == NodeStatus::Unchanged);
}

} // verus!
