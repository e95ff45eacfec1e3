//! The interactive diff browser: session state, its event transitions and
//! the flattened visible-row projection.
//!
//! The session owns an expansion set of tree paths, a cursor into the
//! projected row list, a view mode, a raw-panel toggle and a transient
//! status note.  The row projection is recomputed from scratch after every
//! mutation; its length always bounds the cursor.

use vstd::prelude::*;

use crate::diff::dchildren_size;
use crate::diff::dnode_size;
use crate::diff::lemma_dchild_size;
use crate::diff::DiffNode;
use crate::diff::NodeStatus;
use crate::util::clone_path;
use crate::util::dec_str;
use crate::util::u64_to_string;
use crate::util::usize_to_string;

verus! {

/// An expansion set: the tree paths currently shown expanded, each path a
/// sequence of child indices from the root.
pub struct ExpansionSet {
    paths: Vec<Vec<usize>>,
}

impl View for ExpansionSet {
    type V = Set<Seq<usize>>;

    closed spec fn view(&self) -> Set<Seq<usize>> {
        self.paths@.map_values(|p: Vec<usize>| p@).to_set()
    }
}

impl ExpansionSet {
    /// The stored paths, as sequences.
    spec fn entries(&self) -> Seq<Seq<usize>> {
        self.paths@.map_values(|p: Vec<usize>| p@)
    }

    /// No path is stored twice.
    pub closed spec fn wf(&self) -> bool {
        self.entries().no_duplicates()
    }

    /// The empty expansion set.
    pub fn new() -> (s: ExpansionSet)
        ensures
            s@ == Set::<Seq<usize>>::empty(),
            s.wf(),
    {
        let s = ExpansionSet { paths: Vec::new() };
        proof {
            assert(s.entries() =~= Seq::<Seq<usize>>::empty());
            assert forall|x: Seq<usize>| !(#[trigger] s@.contains(x)) by {
                assert(!s.entries().contains(x));
            }
            assert(s@ =~= Set::<Seq<usize>>::empty());
        }
        s
    }

    /// Whether two stored paths are the same.
    fn paths_eq(a: &Vec<usize>, b: &Vec<usize>) -> (r: bool)
        ensures
            r == (a@ == b@),
    {
        if a.len() != b.len() {
            return false;
        }
        let n = a.len();
        let mut i: usize = 0;
        while i < n
            invariant
                0 <= i <= n,
                n == a@.len(),
                n == b@.len(),
                forall|j: int| 0 <= j < i ==> a@[j] == b@[j],
            decreases n - i,
        {
            if a[i] != b[i] {
                return false;
            }
            i += 1;
        }
        proof {
            assert(a@ =~= b@);
        }
        true
    }

    /// The index at which `p` is stored, if it is.
    fn find(&self, p: &Vec<usize>) -> (r: Option<usize>)
        ensures
            match r {
                Some(i) => i < self.entries().len() && self.entries()[i as int] == p@,
                None => !self.entries().contains(p@),
            },
    {
        let n = self.paths.len();
        let mut i: usize = 0;
        while i < n
            invariant
                0 <= i <= n,
                n == self.paths@.len(),
                forall|j: int| 0 <= j < i ==> self.entries()[j] != p@,
            decreases n - i,
        {
            if Self::paths_eq(&self.paths[i], p) {
                proof {
                    assert(self.entries()[i as int] == p@);
                }
                return Some(i);
            }
            i += 1;
        }
        proof {
            assert forall|j: int| 0 <= j < self.entries().len() implies self.entries()[j]
                != p@ by {}
        }
        None
    }

    /// Whether `p` is a member of the set.
    pub fn contains_path(&self, p: &Vec<usize>) -> (b: bool)
        ensures
            b == self@.contains(p@),
    {
        let r = self.find(p);
        proof {
            if r is Some {
                let i = r->0;
                assert(self.entries().contains(p@)) by {
                    assert(self.entries()[i as int] == p@);
                }
            }
        }
        r.is_some()
    }

    /// Puts `p` into the set; a path already present is kept once.
    pub fn insert(&mut self, p: Vec<usize>)
        requires
            old(self).wf(),
        ensures
            final(self).wf(),
            final(self)@ == old(self)@.insert(p@),
    {
        let already = self.contains_path(&p);
        if !already {
            let ghost before = self.entries();
            self.paths.push(p);
            proof {
                assert(self.entries() =~= before.push(p@));
                assert forall|x: Seq<usize>| #[trigger]
                    self.entries().contains(x) <==> (before.contains(x) || x == p@) by {
                    if self.entries().contains(x) {
                        let j = choose|j: int|
                            0 <= j < self.entries().len() && self.entries()[j] == x;
                        if j < before.len() {
                            assert(before[j] == x);
                        }
                    }
                    if before.contains(x) {
                        let j = choose|j: int| 0 <= j < before.len() && before[j] == x;
                        assert(self.entries()[j] == x);
                    }
                    if x == p@ {
                        assert(self.entries()[before.len() as int] == x);
                    }
                }
                assert(self@ =~= old(self)@.insert(p@));
                assert forall|i: int, j: int|
                    0 <= i < self.entries().len() && 0 <= j < self.entries().len() && i
                        != j implies self.entries()[i] != self.entries()[j] by {
                    if i < before.len() && j < before.len() {
                        assert(before[i] != before[j]);
                    }
                }
            }
        } else {
            proof {
                assert(self@ =~= old(self)@.insert(p@));
            }
        }
    }

    /// Takes `p` out of the set; a path not present leaves it unchanged.
    pub fn remove(&mut self, p: &Vec<usize>)
        requires
            old(self).wf(),
        ensures
            final(self).wf(),
            final(self)@ == old(self)@.remove(p@),
    {
        let found = self.find(p);
        match found {
            Some(i) => {
                let ghost before = self.entries();
                self.paths.remove(i);
                proof {
                    assert(self.entries() =~= before.remove(i as int));
                    assert forall|x: Seq<usize>| #[trigger]
                        self.entries().contains(x) <==> (before.contains(x) && x != p@) by {
                        if self.entries().contains(x) {
                            let j = choose|j: int|
                                0 <= j < self.entries().len() && self.entries()[j] == x;
                            if j < i {
                                assert(before[j] == x);
                                assert(before[i as int] == p@);
                                if x == p@ {
                                    assert(before[j] == before[i as int]);
                                    assert(false);
                                }
                            } else {
                                assert(before[j + 1] == x);
                                if x == p@ {
                                    assert(before[j + 1] == before[i as int]);
                                    assert(false);
                                }
                            }
                        }
                        if before.contains(x) && x != p@ {
                            let j = choose|j: int| 0 <= j < before.len() && before[j] == x;
                            if j < i {
                                assert(self.entries()[j] == x);
                            } else {
                                assert(j != i);
                                assert(self.entries()[j - 1] == x);
                            }
                        }
                    }
                    assert(self@ =~= old(self)@.remove(p@));
                    assert forall|a: int, b: int|
                        0 <= a < self.entries().len() && 0 <= b < self.entries().len() && a
                            != b implies self.entries()[a] != self.entries()[b] by {
                        let a0: int = if a < i { a } else { a + 1 };
                        let b0: int = if b < i { b } else { b + 1 };
                        assert(self.entries()[a] == before[a0]);
                        assert(self.entries()[b] == before[b0]);
                        assert(before[a0] != before[b0]);
                    }
                }
            },
            None => {
                proof {
                    assert(!old(self)@.contains(p@));
                    assert(self@ =~= old(self)@.remove(p@));
                }
            },
        }
    }
}

/// One row of the flattened visible projection.
pub struct VisibleRow {
    pub path: Vec<usize>,
    pub indent: usize,
    pub label: String,
    pub status: NodeStatus,
    pub has_children: bool,
}

/// The mathematical content of one visible row.
pub ghost struct RowV {
    pub path: Seq<usize>,
    pub indent: int,
    pub label: Seq<char>,
    pub status: NodeStatus,
    pub has_children: bool,
}

impl View for VisibleRow {
    type V = RowV;

    open spec fn view(&self) -> RowV {
        RowV {
            path: self.path@,
            indent: self.indent as int,
            label: self.label@,
            status: self.status,
            has_children: self.has_children,
        }
    }
}

/// The display label of a diff node: its key when present, else its tag.
pub open spec fn label_spec(d: DiffNode) -> Seq<char> {
    match d.key {
        Some(k) => k@,
        None => d.tag@,
    }
}

/// The rows contributed by the children of index `0 <= . < i`, each child
/// addressed by its parent path extended with its index.
pub open spec fn rows_of_upto(
    cs: Seq<DiffNode>,
    ex: Set<Seq<usize>>,
    path: Seq<usize>,
    indent: int,
    i: int,
) -> Seq<RowV>
    decreases cs, 1int, i,
{
    if i <= 0 || i > cs.len() {
        Seq::empty()
    } else {
        rows_of_upto(cs, ex, path, indent, i - 1) + rows_of(
            cs[i - 1],
            ex,
            path.push((i - 1) as usize),
            indent,
        )
    }
}

/// The visible rows of the subtree rooted at `d`: the node's own row,
/// then — only when its path is expanded — the rows of all its children
/// in order.
pub open spec fn rows_of(d: DiffNode, ex: Set<Seq<usize>>, path: Seq<usize>, indent: int) -> Seq<
    RowV,
>
    decreases d, 2int, 0int,
{
    seq![
        RowV {
            path: path,
            indent: indent,
            label: label_spec(d),
            status: d.status,
            has_children: d.children@.len() > 0,
        },
    ] + if d.children@.len() > 0 && ex.contains(path) {
        rows_of_upto(d.children@, ex, path, indent + 1, d.children@.len() as int)
    } else {
        Seq::empty()
    }
}

/// The number of nodes reachable from `d` by descending only into
/// expanded paths.
pub open spec fn visible_count(d: DiffNode, ex: Set<Seq<usize>>, path: Seq<usize>) -> int
    decreases d, 2int, 0int,
{
    1 + if d.children@.len() > 0 && ex.contains(path) {
        visible_count_upto(d.children@, ex, path, d.children@.len() as int)
    } else {
        0
    }
}

/// The number of reachable nodes under the children of index below `i`.
pub open spec fn visible_count_upto(
    cs: Seq<DiffNode>,
    ex: Set<Seq<usize>>,
    path: Seq<usize>,
    i: int,
) -> int
    decreases cs, 1int, i,
{
    if i <= 0 || i > cs.len() {
        0
    } else {
        visible_count_upto(cs, ex, path, i - 1) + visible_count(
            cs[i - 1],
            ex,
            path.push((i - 1) as usize),
        )
    }
}

/// The visible-row projection has exactly one row per reachable node: its
/// length is the number of diff-tree nodes reachable by descending only
/// into expanded paths.
pub proof fn lemma_visible_row_count(d: DiffNode, ex: Set<Seq<usize>>, path: Seq<usize>, indent: int)
    ensures
        rows_of(d, ex, path, indent).len() == visible_count(d, ex, path),
        visible_count(d, ex, path) >= 1,
    decreases d, 2int, 0int,
{
    if d.children@.len() > 0 && ex.contains(path) {
        lemma_visible_row_count_upto(d.children@, ex, path, indent + 1, d.children@.len() as int);
    }
}

proof fn lemma_visible_row_count_upto(
    cs: Seq<DiffNode>,
    ex: Set<Seq<usize>>,
    path: Seq<usize>,
    indent: int,
    i: int,
)
    ensures
        rows_of_upto(cs, ex, path, indent, i).len() == visible_count_upto(cs, ex, path, i),
        visible_count_upto(cs, ex, path, i) >= 0,
    decreases cs, 1int, i,
{
    if 0 < i <= cs.len() {
        lemma_visible_row_count_upto(cs, ex, path, indent, i - 1);
        lemma_visible_row_count(cs[i - 1], ex, path.push((i - 1) as usize), indent);
    }
}

/// The display label of a diff node, as an owned string.
pub fn row_label(d: &DiffNode) -> (s: String)
    ensures
        s@ == label_spec(*d),
{
    match &d.key {
        Some(k) => k.clone(),
        None => d.tag.clone(),
    }
}

/// Appends the visible rows of the subtree at `node`, addressed by `path`,
/// to `rows`.
fn push_rows(node: &DiffNode, path: &mut Vec<usize>, expanded: &ExpansionSet, rows: &mut Vec<
    VisibleRow,
>)
    requires
        old(path)@.len() >= 1,
    ensures
        final(path)@ == old(path)@,
        final(rows)@.map_values(|vr: VisibleRow| vr@) == old(rows)@.map_values(
            |vr: VisibleRow| vr@,
        ) + rows_of(*node, expanded@, old(path)@, old(path)@.len() - 1),
    decreases dnode_size(*node),
{
    let ghost base = rows@.map_values(|vr: VisibleRow| vr@);
    let ghost p0 = path@;
    let has_children = node.children.len() > 0;
    let indent = path.len() - 1;
    let vr = VisibleRow {
        path: clone_path(path),
        indent,
        label: row_label(node),
        status: node.status,
        has_children,
    };
    let ghost rv = vr@;
    rows.push(vr);
    proof {
        assert(rows@.map_values(|vr: VisibleRow| vr@) =~= base + seq![rv]);
    }
    if has_children && expanded.contains_path(path) {
        let n = node.children.len();
        let mut i: usize = 0;
        while i < n
            invariant
                0 <= i <= n,
                n == node.children@.len(),
                path@ == p0,
                p0.len() >= 1,
                rows@.map_values(|vr: VisibleRow| vr@) == base + seq![rv] + rows_of_upto(
                    node.children@,
                    expanded@,
                    p0,
                    p0.len() as int,
                    i as int,
                ),
            decreases n - i,
        {
            proof {
                lemma_dchild_size(node.children@, i as int);
                assert(dnode_size(*node) == 1 + dchildren_size(node.children@));
            }
            path.push(i);
            push_rows(&node.children[i], path, expanded, rows);
            path.pop();
            proof {
                assert(path@ =~= p0);
                assert(p0.push(i as usize) == path@.push(i as usize));
                assert(rows@.map_values(|vr: VisibleRow| vr@) =~= base + seq![rv] + rows_of_upto(
                    node.children@,
                    expanded@,
                    p0,
                    p0.len() as int,
                    i as int + 1,
                ));
            }
            i += 1;
        }
        proof {
            assert(rows@.map_values(|vr: VisibleRow| vr@) =~= base + rows_of(
                *node,
                expanded@,
                p0,
                p0.len() - 1,
            ));
        }
    } else {
        proof {
            assert(rows@.map_values(|vr: VisibleRow| vr@) =~= base + rows_of(
                *node,
                expanded@,
                p0,
                p0.len() - 1,
            ));
        }
    }
}

/// Projects the diff tree into the flattened list of visible rows: a
/// depth-first walk from the root at path `0`, descending only into
/// children of expanded paths.  Recomputed in full after every mutation.
pub fn build_rows(root: &DiffNode, expanded: &ExpansionSet) -> (rows: Vec<VisibleRow>)
    ensures
        rows@.map_values(|vr: VisibleRow| vr@) == rows_of(*root, expanded@, seq![0usize], 0),
        rows@.len() >= 1,
{
    let mut rows: Vec<VisibleRow> = Vec::new();
    let mut path: Vec<usize> = Vec::new();
    path.push(0);
    proof {
        assert(path@ =~= seq![0usize]);
        assert(rows@.map_values(|vr: VisibleRow| vr@) =~= Seq::<RowV>::empty());
    }
    push_rows(root, &mut path, expanded, &mut rows);
    proof {
        assert(Seq::<RowV>::empty() + rows_of(*root, expanded@, seq![0usize], 0) =~= rows_of(
            *root,
            expanded@,
            seq![0usize],
            0,
        ));
        assert(rows@.map_values(|vr: VisibleRow| vr@).len() == rows@.len());
    }
    rows
}

/// The dot-joined decimal rendering of a tree path.
pub open spec fn path_str(p: Seq<usize>) -> Seq<char>
    decreases p.len(),
{
    if p.len() == 0 {
        Seq::empty()
    } else if p.len() == 1 {
        dec_str(p[0] as nat)
    } else {
        path_str(p.drop_last()) + seq!['.'] + dec_str(p.last() as nat)
    }
}

/// Renders a tree path as dot-joined decimal indices.
pub fn path_to_string(path: &Vec<usize>) -> (s: String)
    ensures
        s@ == path_str(path@),
{
    let mut s = String::new();
    let n = path.len();
    let mut i: usize = 0;
    while i < n
        invariant
            0 <= i <= n,
            n == path@.len(),
            s@ == path_str(path@.take(i as int)),
        decreases n - i,
    {
        if i > 0 {
            s.append(".");
            proof {
                reveal_strlit(".");
            }
        }
        let d = usize_to_string(path[i]);
        s.append(d.as_str());
        proof {
            assert(path@.take(i as int + 1).drop_last() =~= path@.take(i as int));
            assert(path@.take(i as int + 1).last() == path@[i as int]);
            assert(s@ =~= path_str(path@.take(i as int + 1)));
        }
        i += 1;
    }
    proof {
        assert(path@.take(n as int) =~= path@);
    }
    s
}

/// The rest of `p`, from index `i` on, addresses a node inside `d`: every
/// index picks an existing child.
pub open spec fn path_valid(d: DiffNode, p: Seq<usize>, i: int) -> bool
    decreases p.len() - i,
{
    if i >= p.len() {
        true
    } else {
        (p[i] as int) < d.children@.len() && path_valid(d.children@[p[i] as int], p, i + 1)
    }
}

/// The node addressed by the rest of `p` from index `i` on, walking child
/// indices in the diff tree's own child order.
pub open spec fn node_at(d: DiffNode, p: Seq<usize>, i: int) -> DiffNode
    decreases p.len() - i,
{
    if i >= p.len() {
        d
    } else if (p[i] as int) < d.children@.len() {
        node_at(d.children@[p[i] as int], p, i + 1)
    } else {
        d
    }
}

/// Resolves a row path in the diff tree: the leading index addresses the
/// root itself, each later index picks a child by position in the tree's
/// child order.  An out-of-range index gives `None`; correct row
/// projection never produces one.
pub fn node_by_path<'a>(root: &'a DiffNode, path: &Vec<usize>) -> (r: Option<&'a DiffNode>)
    ensures
        r is Some <==> path_valid(*root, path@, 1),
        r matches Some(n) ==> *n == node_at(*root, path@, 1),
{
    let mut node = root;
    let n = path.len();
    let mut i: usize = 1;
    while i < n
        invariant
            1 <= i,
            i <= n || i == 1,
            n == path@.len(),
            path_valid(*root, path@, 1) <==> path_valid(*node, path@, i as int),
            path_valid(*node, path@, i as int) ==> node_at(*root, path@, 1) == node_at(
                *node,
                path@,
                i as int,
            ),
        decreases n - i,
    {
        let idx = path[i];
        if idx >= node.children.len() {
            proof {
                assert(!path_valid(*node, path@, i as int));
            }
            return None;
        }
        node = &node.children[idx];
        i += 1;
    }
    proof {
        assert(path_valid(*node, path@, i as int));
    }
    Some(node)
}

/// The row describes the node that its path addresses inside `d`, the
/// indices from position `i` on doing the walking.
pub open spec fn row_resolves(d: DiffNode, q: Seq<usize>, i: int, row: RowV) -> bool {
    &&& path_valid(d, q, i)
    &&& ({
        let n = node_at(d, q, i);
        &&& row.label == label_spec(n)
        &&& row.status == n.status
        &&& row.has_children == (n.children@.len() > 0)
    })
}

/// Every row the projection emits carries a path that resolves in the
/// diff tree: it starts with the root's index, every later index picks an
/// existing child, and the node it reaches is the one the row shows.
/// Correct row projection never produces an out-of-range path.
pub proof fn lemma_rows_paths_resolve(root: DiffNode, ex: Set<Seq<usize>>)
    ensures
        forall|k: int|
            0 <= k < rows_of(root, ex, seq![0usize], 0).len() ==> {
                let row = #[trigger] rows_of(root, ex, seq![0usize], 0)[k];
                &&& row.path.len() >= 1
                &&& row.path[0] == 0
                &&& row_resolves(root, row.path, 1, row)
            },
{
    lemma_rows_resolve(root, ex, seq![0usize], 0);
    assert forall|k: int| 0 <= k < rows_of(root, ex, seq![0usize], 0).len() implies {
        let row = #[trigger] rows_of(root, ex, seq![0usize], 0)[k];
        &&& row.path.len() >= 1
        &&& row.path[0] == 0
        &&& row_resolves(root, row.path, 1, row)
    } by {
        let row = rows_of(root, ex, seq![0usize], 0)[k];
        assert(row.path.take(1) == seq![0usize]);
        assert(row.path[0] == row.path.take(1)[0]);
    }
}

proof fn lemma_rows_resolve(d: DiffNode, ex: Set<Seq<usize>>, p0: Seq<usize>, ind: int)
    ensures
        forall|k: int|
            0 <= k < rows_of(d, ex, p0, ind).len() ==> {
                let row = #[trigger] rows_of(d, ex, p0, ind)[k];
                &&& row.path.len() >= p0.len()
                &&& row.path.take(p0.len() as int) == p0
                &&& row_resolves(d, row.path, p0.len() as int, row)
            },
    decreases d, 2int, 0int,
{
    let rows = rows_of(d, ex, p0, ind);
    assert(rows[0].path == p0);
    assert(p0.take(p0.len() as int) =~= p0);
    assert(path_valid(d, p0, p0.len() as int));
    assert(node_at(d, p0, p0.len() as int) == d);
    if d.children@.len() > 0 && ex.contains(p0) {
        let cs = d.children@;
        assert(cs.len() <= usize::MAX) by {
            assert(cs.len() == d.children.len());
        }
        lemma_rows_resolve_upto(cs, ex, p0, ind + 1, cs.len() as int);
        let sub = rows_of_upto(cs, ex, p0, ind + 1, cs.len() as int);
        assert forall|k: int| 0 <= k < rows.len() implies {
            let row = #[trigger] rows[k];
            &&& row.path.len() >= p0.len()
            &&& row.path.take(p0.len() as int) == p0
            &&& row_resolves(d, row.path, p0.len() as int, row)
        } by {
            if k > 0 {
                let row = sub[k - 1];
                assert(rows[k] == row);
                let q = row.path;
                let j = q[p0.len() as int] as int;
                assert(0 <= j < cs.len() && q.len() > p0.len() && q.take(p0.len() as int) == p0
                    && row_resolves(cs[j], q, p0.len() as int + 1, row));
                assert(path_valid(d, q, p0.len() as int));
                assert(node_at(d, q, p0.len() as int) == node_at(cs[j], q, p0.len() as int + 1));
            }
        }
    }
}

proof fn lemma_rows_resolve_upto(
    cs: Seq<DiffNode>,
    ex: Set<Seq<usize>>,
    p0: Seq<usize>,
    ind: int,
    i: int,
)
    requires
        cs.len() <= usize::MAX,
    ensures
        forall|k: int|
            0 <= k < rows_of_upto(cs, ex, p0, ind, i).len() ==> {
                let row = #[trigger] rows_of_upto(cs, ex, p0, ind, i)[k];
                let q = row.path;
                &&& q.len() > p0.len()
                &&& q.take(p0.len() as int) == p0
                &&& 0 <= (q[p0.len() as int] as int) < cs.len()
                &&& row_resolves(cs[q[p0.len() as int] as int], q, p0.len() as int + 1, row)
            },
    decreases cs, 1int, i,
{
    if 0 < i <= cs.len() {
        lemma_rows_resolve_upto(cs, ex, p0, ind, i - 1);
        let child = cs[i - 1];
        let pc = p0.push((i - 1) as usize);
        lemma_rows_resolve(child, ex, pc, ind);
        let pre = rows_of_upto(cs, ex, p0, ind, i - 1);
        let sub = rows_of(child, ex, pc, ind);
        let all = rows_of_upto(cs, ex, p0, ind, i);
        assert forall|k: int| 0 <= k < all.len() implies {
            let row = #[trigger] all[k];
            let q = row.path;
            &&& q.len() > p0.len()
            &&& q.take(p0.len() as int) == p0
            &&& 0 <= (q[p0.len() as int] as int) < cs.len()
            &&& row_resolves(cs[q[p0.len() as int] as int], q, p0.len() as int + 1, row)
        } by {
            if k < pre.len() {
                assert(all[k] == pre[k]);
            } else {
                let row = sub[k - pre.len()];
                assert(all[k] == row);
                let q = row.path;
                assert(q.len() >= pc.len() && q.take(pc.len() as int) == pc);
                assert(q.take(pc.len() as int)[p0.len() as int] == q[p0.len() as int]);
                assert(pc[p0.len() as int] == (i - 1) as usize);
                assert(q.take(p0.len() as int) =~= q.take(pc.len() as int).take(p0.len() as int));
                assert(pc.take(p0.len() as int) =~= p0);
            }
        }
    }
}

/// The two ways the diff browser lays out its rows.
#[derive(Debug, PartialEq, Eq, Clone, Copy, Structural)]
pub enum ViewMode {
    Unified,
    SideBySide,
}

/// A transient status message and the second it was created at.
#[derive(Debug)]
pub struct StatusNote {
    pub text: String,
    pub created_at: u64,
}

/// How long a status note stays visible, in seconds.
pub const NOTE_SECS: u64 = 3;

/// The ephemeral state of one interactive browsing session.
pub struct Session {
    pub expanded: ExpansionSet,
    pub cursor: usize,
    pub mode: ViewMode,
    pub show_raw: bool,
    pub note: Option<StatusNote>,
}

/// The visible rows a session projects for a given diff tree.
pub open spec fn session_rows(s: Session, root: DiffNode) -> Seq<RowV> {
    rows_of(root, s.expanded@, seq![0usize], 0)
}

/// Browser invariant: the expansion set is well formed and the cursor is a
/// valid index into the visible-row projection — never negative, never at
/// or past its length.
pub open spec fn session_wf(s: Session, root: DiffNode) -> bool {
    &&& s.expanded.wf()
    &&& (s.cursor as int) < session_rows(s, root).len()
}

/// A row projection is never empty: the root always contributes a row.
pub proof fn lemma_rows_nonempty(d: DiffNode, ex: Set<Seq<usize>>, path: Seq<usize>, indent: int)
    ensures
        rows_of(d, ex, path, indent).len() >= 1,
{
}

impl Session {
    /// A fresh session: only the root expanded, the cursor on the first
    /// row, unified view, raw panel hidden, no status note.  It satisfies
    /// the browser invariant for every diff tree.
    pub fn new() -> (s: Session)
        ensures
            s.expanded@ == Set::<Seq<usize>>::empty().insert(seq![0usize]),
            s.expanded.wf(),
            s.cursor == 0,
            s.mode == ViewMode::Unified,
            s.show_raw == false,
            s.note is None,
            forall|root: DiffNode| session_wf(s, root),
    {
        let mut ex = ExpansionSet::new();
        let mut rootp: Vec<usize> = Vec::new();
        rootp.push(0);
        proof {
            assert(rootp@ =~= seq![0usize]);
        }
        ex.insert(rootp);
        let s = Session {
            expanded: ex,
            cursor: 0,
            mode: ViewMode::Unified,
            show_raw: false,
            note: None,
        };
        proof {
            assert forall|root: DiffNode| session_wf(s, root) by {
                lemma_rows_nonempty(root, s.expanded@, seq![0usize], 0);
            }
        }
        s
    }

    /// Moves the cursor one row down, when a row below exists.
    pub fn move_down(&mut self, root: &DiffNode)
        requires
            session_wf(*old(self), *root),
        ensures
            session_wf(*final(self), *root),
            final(self).expanded == old(self).expanded,
            final(self).mode == old(self).mode,
            final(self).show_raw == old(self).show_raw,
            final(self).note == old(self).note,
            final(self).cursor as int == (if old(self).cursor as int + 1 < session_rows(
                *old(self),
                *root,
            ).len() {
                old(self).cursor as int + 1
            } else {
                old(self).cursor as int
            }),
    {
        let rows = build_rows(root, &self.expanded);
        let n = rows.len();
        proof {
            assert(rows@.map_values(|vr: VisibleRow| vr@).len() == rows@.len());
            assert(self.cursor < n);
        }
        if self.cursor + 1 < n {
            self.cursor = self.cursor + 1;
        }
    }

    /// Moves the cursor one row up, when it is not on the first row.
    pub fn move_up(&mut self, root: &DiffNode)
        requires
            session_wf(*old(self), *root),
        ensures
            session_wf(*final(self), *root),
            final(self).expanded == old(self).expanded,
            final(self).mode == old(self).mode,
            final(self).show_raw == old(self).show_raw,
            final(self).note == old(self).note,
            final(self).cursor as int == (if old(self).cursor > 0 {
                old(self).cursor as int - 1
            } else {
                0
            }),
    {
        if self.cursor > 0 {
            self.cursor = self.cursor - 1;
        }
    }

    /// Switches between the unified and the side-by-side layout.
    pub fn toggle_view(&mut self)
        ensures
            final(self).mode == (if old(self).mode == ViewMode::Unified {
                ViewMode::SideBySide
            } else {
                ViewMode::Unified
            }),
            final(self).expanded == old(self).expanded,
            final(self).cursor == old(self).cursor,
            final(self).show_raw == old(self).show_raw,
            final(self).note == old(self).note,
    {
        self.mode = if self.mode == ViewMode::Unified {
            ViewMode::SideBySide
        } else {
            ViewMode::Unified
        };
    }

    /// Shows or hides the raw-fragment panel.
    pub fn toggle_raw(&mut self)
        ensures
            final(self).show_raw == !old(self).show_raw,
            final(self).expanded == old(self).expanded,
            final(self).cursor == old(self).cursor,
            final(self).mode == old(self).mode,
            final(self).note == old(self).note,
    {
        self.show_raw = !self.show_raw;
    }

    /// Expands or collapses the selected row, when it has children: its
    /// path flips membership in the expansion set, the rows are rebuilt,
    /// and the cursor is clamped to the last row when it fell past the
    /// end.  A leaf row leaves the session unchanged.
    pub fn toggle_expand(&mut self, root: &DiffNode)
        requires
            session_wf(*old(self), *root),
        ensures
            session_wf(*final(self), *root),
            final(self).mode == old(self).mode,
            final(self).show_raw == old(self).show_raw,
            final(self).note == old(self).note,
            ({
                let sel = session_rows(*old(self), *root)[old(self).cursor as int];
                if sel.has_children {
                    &&& final(self).expanded@ == (if old(self).expanded@.contains(sel.path) {
                        old(self).expanded@.remove(sel.path)
                    } else {
                        old(self).expanded@.insert(sel.path)
                    })
                    &&& final(self).cursor as int == (if (old(self).cursor as int) < session_rows(
                        *final(self),
                        *root,
                    ).len() {
                        old(self).cursor as int
                    } else {
                        session_rows(*final(self), *root).len() - 1
                    })
                } else {
                    &&& final(self).expanded == old(self).expanded
                    &&& final(self).cursor == old(self).cursor
                }
            }),
    {
        let rows = build_rows(root, &self.expanded);
        proof {
            assert(rows@.map_values(|vr: VisibleRow| vr@).len() == rows@.len());
            assert(rows@[old(self).cursor as int]@ == session_rows(*old(self), *root)[old(
                self,
            ).cursor as int]);
        }
        if rows[self.cursor].has_children {
            let already = self.expanded.contains_path(&rows[self.cursor].path);
            if already {
                self.expanded.remove(&rows[self.cursor].path);
            } else {
                let p = clone_path(&rows[self.cursor].path);
                self.expanded.insert(p);
            }
            let rows2 = build_rows(root, &self.expanded);
            proof {
                assert(rows2@.map_values(|vr: VisibleRow| vr@).len() == rows2@.len());
            }
            if !(self.cursor < rows2.len()) {
                self.cursor = rows2.len() - 1;
            }
        }
    }

    /// The path of the selected row, for fragment display and export.
    pub fn selected_path(&self, root: &DiffNode) -> (p: Vec<usize>)
        requires
            session_wf(*self, *root),
        ensures
            p@ == session_rows(*self, *root)[self.cursor as int].path,
    {
        let rows = build_rows(root, &self.expanded);
        proof {
            assert(rows@.map_values(|vr: VisibleRow| vr@).len() == rows@.len());
            assert(rows@[self.cursor as int]@ == session_rows(*self, *root)[self.cursor as int]);
        }
        clone_path(&rows[self.cursor].path)
    }

    /// Records the outcome of an export as a transient status note
    /// stamped with the current second.
    pub fn report_export(&mut self, ok: bool, fname: &str, now: u64)
        ensures
            final(self).note matches Some(n) && n.created_at == now && n.text@ == (if ok {
                "Exported to "@ + fname@
            } else {
                "Failed to write "@ + fname@
            }),
            final(self).expanded == old(self).expanded,
            final(self).cursor == old(self).cursor,
            final(self).mode == old(self).mode,
            final(self).show_raw == old(self).show_raw,
    {
        let mut text = if ok {
            "Exported to ".to_owned()
        } else {
            "Failed to write ".to_owned()
        };
        text.append(fname);
        self.note = Some(StatusNote { text, created_at: now });
    }

    /// The status note to show at `now`, if any: a note is visible only
    /// while less than `NOTE_SECS` seconds old; expiry is evaluated
    /// lazily, here, not by a timer.
    pub fn visible_note(&self, now: u64) -> (t: Option<String>)
        ensures
            match self.note {
                Some(n) => {
                    if n.created_at <= now && now < n.created_at + NOTE_SECS {
                        t matches Some(s) && s@ == n.text@
                    } else {
                        t is None
                    }
                },
                None => t is None,
            },
    {
        match &self.note {
            Some(n) => {
                if n.created_at <= now && now - n.created_at < NOTE_SECS {
                    Some(n.text.clone())
                } else {
                    None
                }
            },
            None => None,
        }
    }
}

/// The export artifact's file name, derived deterministically from the
/// exported node's tag and the second of the export.
pub fn export_file_name(tag: &str, stamp: u64) -> (s: String)
    ensures
        s@ == "arxml-"@ + tag@ + "-"@ + dec_str(stamp as nat) + ".xml"@,
{
    let mut s = "arxml-".to_owned();
    s.append(tag);
    s.append("-");
    let digits = u64_to_string(stamp);
    s.append(digits.as_str());
    s.append(".xml");
    proof {
        assert(s@ =~= "arxml-"@ + tag@ + "-"@ + dec_str(stamp as nat) + ".xml"@);
    }
    s
}

} // verus!
