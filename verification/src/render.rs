//! Plain-text renderings of a diff tree: the unified line list and the
//! side-by-side two-column line list.  Callers print the returned lines;
//! nothing here touches an output stream.

use vstd::prelude::*;

use crate::browser::label_spec;
use crate::browser::row_label;
use crate::diff::dchildren_size;
use crate::diff::dnode_size;
use crate::diff::lemma_dchild_size;
use crate::diff::DiffNode;
use crate::diff::NodeStatus;
use crate::util::indent_of;
use crate::util::indent_str;
use crate::util::repeat_char;
use crate::util::append_spaces;
use crate::util::append_dashes;

verus! {

/// The one-character status marker of the unified rendering.
pub open spec fn marker_spec(st: NodeStatus) -> Seq<char> {
    match st {
        NodeStatus::Added => "+"@,
        NodeStatus::Removed => "-"@,
        NodeStatus::Changed => "~"@,
        NodeStatus::Unchanged => " "@,
    }
}

/// One unified line: indentation, marker, one space, label.
pub open spec fn uni_line(d: DiffNode, indent: nat) -> Seq<char> {
    indent_str(indent) + marker_spec(d.status) + " "@ + label_spec(d)
}

/// The unified lines of the children of index below `i`.
pub open spec fn uni_lines_upto(cs: Seq<DiffNode>, indent: nat, i: int) -> Seq<Seq<char>>
    decreases cs, 1int, i,
{
    if i <= 0 || i > cs.len() {
        Seq::empty()
    } else {
        uni_lines_upto(cs, indent, i - 1) + uni_lines_of(cs[i - 1], indent)
    }
}

/// The unified rendering of a subtree: one line per node, children
/// indented one level deeper.
pub open spec fn uni_lines_of(d: DiffNode, indent: nat) -> Seq<Seq<char>>
    decreases d, 2int, 0int,
{
    seq![uni_line(d, indent)] + uni_lines_upto(d.children@, indent + 1, d.children@.len() as int)
}

/// The marker of one unified line, as a string.
fn marker_of(st: NodeStatus) -> (s: &'static str)
    ensures
        s@ == marker_spec(st),
{
    match st {
        NodeStatus::Added => "+",
        NodeStatus::Removed => "-",
        NodeStatus::Changed => "~",
        NodeStatus::Unchanged => " ",
    }
}

fn render_node(node: &DiffNode, indent: usize, out: &mut Vec<String>)
    requires
        indent + dnode_size(*node) <= usize::MAX,
    ensures
        final(out)@.map_values(|s: String| s@) == old(out)@.map_values(|s: String| s@)
            + uni_lines_of(*node, indent as nat),
    decreases dnode_size(*node),
{
    let ghost base = out@.map_values(|s: String| s@);
    let mut line = indent_of(indent);
    line.append(marker_of(node.status));
    line.append(" ");
    let label = row_label(node);
    line.append(label.as_str());
    let ghost lv = line@;
    out.push(line);
    proof {
        assert(lv =~= uni_line(*node, indent as nat));
        assert(out@.map_values(|s: String| s@) =~= base + seq![uni_line(*node, indent as nat)]);
    }
    let n = node.children.len();
    let mut i: usize = 0;
    while i < n
        invariant
            0 <= i <= n,
            n == node.children@.len(),
            indent + dnode_size(*node) <= usize::MAX,
            dnode_size(*node) == 1 + dchildren_size(node.children@),
            out@.map_values(|s: String| s@) == base + seq![uni_line(*node, indent as nat)]
                + uni_lines_upto(node.children@, indent as nat + 1, i as int),
        decreases n - i,
    {
        proof {
            lemma_dchild_size(node.children@, i as int);
        }
        render_node(&node.children[i], indent + 1, out);
        proof {
            assert(out@.map_values(|s: String| s@) =~= base + seq![uni_line(*node, indent as nat)]
                + uni_lines_upto(node.children@, indent as nat + 1, i as int + 1));
        }
        i += 1;
    }
    proof {
        assert(out@.map_values(|s: String| s@) =~= base + uni_lines_of(*node, indent as nat));
    }
}

/// The unified rendering of a whole diff tree: one line per node with a
/// leading `+`, `-`, `~` or blank marker and indentation by depth.
pub fn render_tree(root: &DiffNode) -> (lines: Vec<String>)
    requires
        dnode_size(*root) <= usize::MAX,
    ensures
        lines@.map_values(|s: String| s@) == uni_lines_of(*root, 0),
{
    let mut out: Vec<String> = Vec::new();
    proof {
        assert(out@.map_values(|s: String| s@) =~= Seq::<Seq<char>>::empty());
    }
    render_node(root, 0, &mut out);
    proof {
        assert(Seq::<Seq<char>>::empty() + uni_lines_of(*root, 0) =~= uni_lines_of(*root, 0));
    }
    out
}

/// The widest label in the subtree, in characters.
pub open spec fn max_width_spec(d: DiffNode) -> int
    decreases d, 2int, 0int,
{
    let own = label_spec(d).len() as int;
    let rest = max_width_upto(d.children@, d.children@.len() as int);
    if own >= rest {
        own
    } else {
        rest
    }
}

/// The widest label among the children of index below `i`.
pub open spec fn max_width_upto(cs: Seq<DiffNode>, i: int) -> int
    decreases cs, 1int, i,
{
    if i <= 0 || i > cs.len() {
        0
    } else {
        let rest = max_width_upto(cs, i - 1);
        let own = max_width_spec(cs[i - 1]);
        if own >= rest {
            own
        } else {
            rest
        }
    }
}

/// Computes the widest label in the subtree, in characters.
pub fn compute_max_width(node: &DiffNode) -> (w: usize)
    ensures
        w as int == max_width_spec(*node),
    decreases dnode_size(*node),
{
    let label = row_label(node);
    let mut max = label.as_str().unicode_len();
    let n = node.children.len();
    let mut i: usize = 0;
    while i < n
        invariant
            0 <= i <= n,
            n == node.children@.len(),
            max as int == (if label_spec(*node).len() as int >= max_width_upto(
                node.children@,
                i as int,
            ) {
                label_spec(*node).len() as int
            } else {
                max_width_upto(node.children@, i as int)
            }),
        decreases n - i,
    {
        proof {
            lemma_dchild_size(node.children@, i as int);
            assert(dnode_size(*node) == 1 + dchildren_size(node.children@));
        }
        let cw = compute_max_width(&node.children[i]);
        if cw > max {
            max = cw;
        }
        i += 1;
    }
    max
}

/// The fold of the original child scan that picks a left and a right
/// display candidate for a changed node without a key: the first label of
/// a non-added child fills the left side, the first label of a
/// non-removed child fills the right side, and an empty label leaves the
/// slot open for a later child.
pub open spec fn scan_lr(cs: Seq<DiffNode>, i: int, l: Seq<char>, r: Seq<char>) -> (
    Seq<char>,
    Seq<char>,
)
    decreases cs.len() - i,
{
    if i < 0 || i >= cs.len() {
        (l, r)
    } else {
        let l2 = if l.len() == 0 && cs[i].status != NodeStatus::Added {
            label_spec(cs[i])
        } else {
            l
        };
        let r2 = if r.len() == 0 && cs[i].status != NodeStatus::Removed {
            label_spec(cs[i])
        } else {
            r
        };
        scan_lr(cs, i + 1, l2, r2)
    }
}

/// The left and right cell text of one node in the side-by-side
/// rendering: absent sides stay blank, unchanged and keyed changed nodes
/// repeat their label, and an unkeyed changed node borrows labels from
/// its children, falling back to its tag.
pub open spec fn line_values_spec(d: DiffNode) -> (Seq<char>, Seq<char>) {
    match d.status {
        NodeStatus::Added => (Seq::empty(), label_spec(d)),
        NodeStatus::Removed => (label_spec(d), Seq::empty()),
        NodeStatus::Unchanged => (label_spec(d), label_spec(d)),
        NodeStatus::Changed => match d.key {
            Some(k) => (k@, k@),
            None => {
                let s = scan_lr(d.children@, 0, Seq::empty(), Seq::empty());
                if s.0.len() == 0 && s.1.len() == 0 {
                    (d.tag@, d.tag@)
                } else {
                    s
                }
            },
        },
    }
}

/// Computes the left and right cell text of one node.
pub fn line_values(node: &DiffNode) -> (res: (String, String))
    ensures
        (res.0@, res.1@) == line_values_spec(*node),
{
    match node.status {
        NodeStatus::Added => {
            let label = row_label(node);
            (String::new(), label)
        },
        NodeStatus::Removed => {
            let label = row_label(node);
            (label, String::new())
        },
        NodeStatus::Unchanged => {
            let label = row_label(node);
            (label.clone(), label)
        },
        NodeStatus::Changed => {
            if let Some(k) = &node.key {
                return (k.clone(), k.clone());
            }
            let mut left = String::new();
            let mut right = String::new();
            let n = node.children.len();
            let mut i: usize = 0;
            while i < n
                invariant
                    0 <= i <= n,
                    n == node.children@.len(),
                    scan_lr(node.children@, i as int, left@, right@) == scan_lr(
                        node.children@,
                        0,
                        Seq::<char>::empty(),
                        Seq::<char>::empty(),
                    ),
                decreases n - i,
            {
                let c = &node.children[i];
                if left.as_str().is_empty() && !(c.status == NodeStatus::Added) {
                    left = row_label(c);
                }
                if right.as_str().is_empty() && !(c.status == NodeStatus::Removed) {
                    right = row_label(c);
                }
                i += 1;
            }
            if left.as_str().is_empty() && right.as_str().is_empty() {
                (node.tag.clone(), node.tag.clone())
            } else {
                (left, right)
            }
        },
    }
}

/// Blank-pads a cell on the right out to `w` characters.
pub open spec fn pad_to(s: Seq<char>, w: int) -> Seq<char> {
    if s.len() < w {
        s + repeat_char(' ', (w - s.len()) as nat)
    } else {
        s
    }
}

/// The middle marker of one side-by-side line.
pub open spec fn mid_spec(st: NodeStatus) -> Seq<char> {
    if st == NodeStatus::Changed {
        " ~ "@
    } else {
        "   "@
    }
}

/// One side-by-side line: the padded left cell, the middle marker, the
/// right cell.  A blank side stays wholly blank, without indentation.
pub open spec fn side_line(d: DiffNode, depth: nat, width: int) -> Seq<char> {
    let lv = line_values_spec(d);
    let lcell = if lv.0.len() == 0 {
        Seq::<char>::empty()
    } else {
        indent_str(depth) + lv.0
    };
    let rcell = if lv.1.len() == 0 {
        Seq::<char>::empty()
    } else {
        indent_str(depth) + lv.1
    };
    pad_to(lcell, width + 2) + mid_spec(d.status) + rcell
}

/// An unkeyed node over a single keyed child whose key already fills both
/// cells adds no information: its own row is skipped.
pub open spec fn skips_row(d: DiffNode) -> bool {
    &&& d.key is None
    &&& d.children@.len() == 1
    &&& d.children@[0].key is Some
    &&& d.children@[0].key->0@ == line_values_spec(d).0
    &&& d.children@[0].key->0@ == line_values_spec(d).1
}

/// The side-by-side lines of the children of index below `i`.
pub open spec fn side_lines_upto(cs: Seq<DiffNode>, depth: nat, width: int, i: int) -> Seq<
    Seq<char>,
>
    decreases cs, 1int, i,
{
    if i <= 0 || i > cs.len() {
        Seq::empty()
    } else {
        side_lines_upto(cs, depth, width, i - 1) + side_lines_of(cs[i - 1], depth, width)
    }
}

/// The side-by-side rendering of a subtree.
pub open spec fn side_lines_of(d: DiffNode, depth: nat, width: int) -> Seq<Seq<char>>
    decreases d, 2int, 0int,
{
    if skips_row(d) {
        side_lines_of1(d.children@[0], depth, width)
    } else {
        seq![side_line(d, depth, width)] + side_lines_upto(
            d.children@,
            depth + 1,
            width,
            d.children@.len() as int,
        )
    }
}

/// The same rendering, one step down the single-child chain.
pub open spec fn side_lines_of1(d: DiffNode, depth: nat, width: int) -> Seq<Seq<char>>
    decreases d, 3int, 0int,
{
    side_lines_of(d, depth, width)
}

/// Builds one side-by-side line.
fn make_side_line(node: &DiffNode, depth: usize, width: usize, lv: (String, String)) -> (s: String)
    requires
        (lv.0@, lv.1@) == line_values_spec(*node),
        width + 2 <= usize::MAX,
    ensures
        s@ == side_line(*node, depth as nat, width as int),
{
    let mut s = String::new();
    let mut lcell = String::new();
    if !lv.0.as_str().is_empty() {
        lcell = indent_of(depth);
        lcell.append(lv.0.as_str());
    }
    let mut rcell = String::new();
    if !lv.1.as_str().is_empty() {
        rcell = indent_of(depth);
        rcell.append(lv.1.as_str());
    }
    let lw = lcell.as_str().unicode_len();
    s.append(lcell.as_str());
    if lw < width + 2 {
        append_spaces(&mut s, width + 2 - lw);
    }
    if node.status == NodeStatus::Changed {
        s.append(" ~ ");
    } else {
        s.append("   ");
    }
    s.append(rcell.as_str());
    proof {
        assert(s@ =~= side_line(*node, depth as nat, width as int));
    }
    s
}

fn render_node_side(node: &DiffNode, depth: usize, width: usize, out: &mut Vec<String>)
    requires
        depth + dnode_size(*node) <= usize::MAX,
        width + 2 <= usize::MAX,
    ensures
        final(out)@.map_values(|s: String| s@) == old(out)@.map_values(|s: String| s@)
            + side_lines_of(*node, depth as nat, width as int),
    decreases dnode_size(*node),
{
    let ghost base = out@.map_values(|s: String| s@);
    let lv = line_values(node);
    // An unkeyed wrapper over one keyed child that repeats the same label
    // on both sides is skipped in favour of the child.
    if node.key.is_none() && node.children.len() == 1 {
        let child = &node.children[0];
        if let Some(ck) = &child.key {
            if *ck == lv.0 && *ck == lv.1 {
                proof {
                    assert(skips_row(*node));
                    lemma_dchild_size(node.children@, 0);
                    assert(dnode_size(*node) == 1 + dchildren_size(node.children@));
                }
                render_node_side(child, depth, width, out);
                return ;
            }
        }
    }
    proof {
        assert(!skips_row(*node));
    }
    let line = make_side_line(node, depth, width, lv);
    out.push(line);
    proof {
        assert(out@.map_values(|s: String| s@) =~= base + seq![
            side_line(*node, depth as nat, width as int),
        ]);
    }
    let n = node.children.len();
    let mut i: usize = 0;
    while i < n
        invariant
            0 <= i <= n,
            n == node.children@.len(),
            depth + dnode_size(*node) <= usize::MAX,
            width + 2 <= usize::MAX,
            dnode_size(*node) == 1 + dchildren_size(node.children@),
            out@.map_values(|s: String| s@) == base + seq![
                side_line(*node, depth as nat, width as int),
            ] + side_lines_upto(node.children@, depth as nat + 1, width as int, i as int),
        decreases n - i,
    {
        proof {
            lemma_dchild_size(node.children@, i as int);
        }
        render_node_side(&node.children[i], depth + 1, width, out);
        proof {
            assert(out@.map_values(|s: String| s@) =~= base + seq![
                side_line(*node, depth as nat, width as int),
            ] + side_lines_upto(node.children@, depth as nat + 1, width as int, i as int + 1));
        }
        i += 1;
    }
    proof {
        assert(out@.map_values(|s: String| s@) =~= base + side_lines_of(
            *node,
            depth as nat,
            width as int,
        ));
    }
}

/// The two header lines of the side-by-side rendering: the column titles
/// and a divider.
pub open spec fn side_header(width: int) -> Seq<Seq<char>> {
    seq![
        pad_to("LEFT"@, width + 2) + " | "@ + "RIGHT"@,
        repeat_char('-', (width + 2) as nat) + "-+-"@ + repeat_char('-', 20),
    ]
}

/// The side-by-side rendering of a whole diff tree: a header, then one
/// line per rendered node with two aligned columns.  The left column
/// width follows the longest label, capped at forty characters plus
/// padding.
pub fn render_side_by_side(root: &DiffNode) -> (lines: Vec<String>)
    requires
        dnode_size(*root) <= usize::MAX,
    ensures
        ({
            let max = max_width_spec(*root);
            let width = (if max >= 40 { 40int } else { max }) + 4;
            lines@.map_values(|s: String| s@) == side_header(width) + side_lines_of(
                *root,
                0,
                width,
            )
        }),
{
    let max = compute_max_width(root);
    let capped: usize = if max >= 40 {
        40
    } else {
        max
    };
    let width = capped + 4;
    let mut out: Vec<String> = Vec::new();
    let mut head = String::new();
    head.append("LEFT");
    proof {
        reveal_strlit("LEFT");
    }
    if 4 < width + 2 {
        append_spaces(&mut head, width + 2 - 4);
    }
    head.append(" | ");
    head.append("RIGHT");
    proof {
        assert(head@ =~= pad_to("LEFT"@, width as int + 2) + " | "@ + "RIGHT"@);
    }
    out.push(head);
    let mut rule = String::new();
    append_dashes(&mut rule, width + 2);
    rule.append("-+-");
    append_dashes(&mut rule, 20);
    proof {
        assert(rule@ =~= repeat_char('-', (width + 2) as nat) + "-+-"@ + repeat_char('-', 20));
    }
    out.push(rule);
    proof {
        assert(out@.map_values(|s: String| s@) =~= side_header(width as int));
    }
    render_node_side(root, 0, width, &mut out);
    proof {
        assert(side_header(width as int) + side_lines_of(*root, 0, width as int) =~= out@
            .map_values(|s: String| s@));
    }
    out
}

} // verus!
