//! The structural comparison of two documents.

use crate::path::{render, Path, Step};
use crate::value::{find, find_entry, lookup, members, trees, Entry, Members, Tree, Value};
use vstd::prelude::*;
use vstd::string::StringExecFns;

verus! {

/// What a difference is.
#[derive(Clone, Copy, Debug, PartialEq, Eq, Structural)]
pub enum DiffKind {
    /// The node exists only in the right document.
    Added,
    /// The node exists only in the left document.
    Removed,
    /// The node exists in both documents, with different content.
    Changed,
}

/// One difference between two documents.
///
/// `Added` carries only `new`, `Removed` only `old`, `Changed` both.
#[derive(Debug)]
pub struct DiffOp {
    pub path: Path,
    pub kind: DiffKind,
    pub old: Option<Value>,
    pub new: Option<Value>,
}

/// The mathematical model of a [`DiffOp`].
pub struct Change {
    pub path: Seq<Step>,
    pub kind: DiffKind,
    pub old: Option<Tree>,
    pub new: Option<Tree>,
}

impl View for DiffOp {
    type V = Change;

    open spec fn view(&self) -> Change {
        Change {
            path: self.path@,
            kind: self.kind,
            old: match self.old {
                Some(v) => Some(v@),
                None => None,
            },
            new: match self.new {
                Some(v) => Some(v@),
                None => None,
            },
        }
    }
}

/// The models of a run of differences, one for one.
pub open spec fn change_views(ops: Seq<DiffOp>) -> Seq<Change> {
    Seq::new(ops.len(), |i: int| ops[i]@)
}

/// The node `new` stands at `path` in the right document only.
pub open spec fn added(path: Seq<Step>, new: Tree) -> Change {
    Change { path, kind: DiffKind::Added, old: None, new: Some(new) }
}

/// The node `old` stands at `path` in the left document only.
pub open spec fn removed(path: Seq<Step>, old: Tree) -> Change {
    Change { path, kind: DiffKind::Removed, old: Some(old), new: None }
}

/// At `path` the left document has `old` where the right one has `new`.
pub open spec fn changed(path: Seq<Step>, old: Tree, new: Tree) -> Change {
    Change { path, kind: DiffKind::Changed, old: Some(old), new: Some(new) }
}

/// The word that names a kind of difference in a report.
pub open spec fn label(kind: DiffKind) -> Seq<char> {
    match kind {
        DiffKind::Added => "ADDED"@,
        DiffKind::Removed => "REMOVED"@,
        DiffKind::Changed => "CHANGED"@,
    }
}

/// The line that reports a difference: its kind, a colon and a space, and
/// the written form of its path.
pub open spec fn headline(c: Change) -> Seq<char> {
    label(c.kind) + ": "@ + render(c.path)
}

/// The larger of two lengths.
pub open spec fn longer(a: nat, b: nat) -> nat {
    if a >= b {
        a
    } else {
        b
    }
}

/// The differences between `left` and `right`, which both stand at `at`.
///
/// Equal documents have none. Two mappings differ by their members: first
/// those of the left in its order, then those that only the right has in
/// its order. Two sequences differ position by position. Any other pair is
/// one change of the whole node, with nothing reported below it.
pub open spec fn changes(at: Seq<Step>, left: Tree, right: Tree) -> Seq<Change>
    decreases left, 0nat,
{
    if left.same(right) {
        Seq::empty()
    } else {
        match (left, right) {
            (Tree::Mapping(l), Tree::Mapping(r)) => left_member_changes(at, l, r, l.len())
                + right_member_changes(at, l, r, r.len()),
            (Tree::Sequence(l), Tree::Sequence(r)) => item_changes(
                at,
                l,
                r,
                longer(l.len(), r.len()),
            ),
            _ => seq![changed(at, left, right)],
        }
    }
}

/// What the first `n` members of the left mapping add: the differences
/// below a key that both mappings have, a removal for a key that only the
/// left has.
pub open spec fn left_member_changes(at: Seq<Step>, l: Members, r: Members, n: nat) -> Seq<
    Change,
>
    decreases l, n,
{
    if n == 0 || n > l.len() {
        Seq::empty()
    } else {
        let here = at.push(Step::Key(l[n - 1].0));
        left_member_changes(at, l, r, (n - 1) as nat) + match lookup(r, l[n - 1].0) {
            Some(w) => changes(here, l[n - 1].1, w),
            None => seq![removed(here, l[n - 1].1)],
        }
    }
}

/// What the first `n` members of the right mapping add: an addition for
/// every key that the left mapping lacks.
pub open spec fn right_member_changes(at: Seq<Step>, l: Members, r: Members, n: nat) -> Seq<
    Change,
>
    decreases n,
{
    if n == 0 || n > r.len() {
        Seq::empty()
    } else {
        right_member_changes(at, l, r, (n - 1) as nat) + match find(l, r[n - 1].0) {
            Some(_) => Seq::empty(),
            None => seq![added(at.push(Step::Key(r[n - 1].0)), r[n - 1].1)],
        }
    }
}

/// What the first `n` positions of two sequences add: the differences
/// below a position that both have, an addition where only the right
/// sequence reaches, a removal where only the left one does.
pub open spec fn item_changes(at: Seq<Step>, l: Seq<Tree>, r: Seq<Tree>, n: nat) -> Seq<Change>
    decreases l, n,
{
    if n == 0 || n > longer(l.len(), r.len()) {
        Seq::empty()
    } else {
        let here = at.push(Step::Index((n - 1) as nat));
        item_changes(at, l, r, (n - 1) as nat) + if n <= l.len() && n <= r.len() {
            changes(here, l[n - 1], r[n - 1])
        } else if n <= r.len() {
            seq![added(here, r[n - 1])]
        } else {
            seq![removed(here, l[n - 1])]
        }
    }
}

/// What the member at position `i` of the left mapping adds.
pub open spec fn left_part(at: Seq<Step>, l: Members, r: Members, i: int) -> Seq<Change> {
    let here = at.push(Step::Key(l[i].0));
    match lookup(r, l[i].0) {
        Some(w) => changes(here, l[i].1, w),
        None => seq![removed(here, l[i].1)],
    }
}

/// What the member at position `j` of the right mapping adds.
pub open spec fn right_part(at: Seq<Step>, l: Members, r: Members, j: int) -> Seq<Change> {
    match find(l, r[j].0) {
        Some(_) => Seq::empty(),
        None => seq![added(at.push(Step::Key(r[j].0)), r[j].1)],
    }
}

/// What position `i` of two sequences adds.
pub open spec fn item_part(at: Seq<Step>, l: Seq<Tree>, r: Seq<Tree>, i: int) -> Seq<Change> {
    let here = at.push(Step::Index(i as nat));
    if i < l.len() && i < r.len() {
        changes(here, l[i], r[i])
    } else if i < r.len() {
        seq![added(here, r[i])]
    } else {
        seq![removed(here, l[i])]
    }
}

/// Equal mappings have no differences among the first `n` members of the
/// left one.
proof fn lemma_same_left_members(at: Seq<Step>, l: Members, r: Members, n: nat)
    requires
        Tree::Mapping(l).same(Tree::Mapping(r)),
        n <= l.len(),
    ensures
        left_member_changes(at, l, r, n) == Seq::<Change>::empty(),
    decreases n,
{
    if n > 0 {
        lemma_same_left_members(at, l, r, (n - 1) as nat);
        let m = l[n - 1];
        let w = lookup(r, m.0)->Some_0;
        assert(changes(at.push(Step::Key(m.0)), m.1, w) == Seq::<Change>::empty());
    }
}

/// Equal mappings have no additions among the first `n` members of the
/// right one.
proof fn lemma_same_right_members(at: Seq<Step>, l: Members, r: Members, n: nat)
    requires
        Tree::Mapping(l).same(Tree::Mapping(r)),
        n <= r.len(),
    ensures
        right_member_changes(at, l, r, n) == Seq::<Change>::empty(),
    decreases n,
{
    if n > 0 {
        lemma_same_right_members(at, l, r, (n - 1) as nat);
        let m = r[n - 1];
    }
}

/// Equal sequences have no differences among their first `n` positions.
proof fn lemma_same_items(at: Seq<Step>, l: Seq<Tree>, r: Seq<Tree>, n: nat)
    requires
        Tree::Sequence(l).same(Tree::Sequence(r)),
        n <= l.len(),
    ensures
        item_changes(at, l, r, n) == Seq::<Change>::empty(),
    decreases n,
{
    if n > 0 {
        lemma_same_items(at, l, r, (n - 1) as nat);
        assert(changes(at.push(Step::Index((n - 1) as nat)), l[n - 1], r[n - 1]) == Seq::<
            Change,
        >::empty());
    }
}

impl DiffKind {
    /// The word that names the kind in a report.
    pub fn label(&self) -> (word: &'static str)
        ensures
            word@ == label(*self),
    {
        match self {
            DiffKind::Added => "ADDED",
            DiffKind::Removed => "REMOVED",
            DiffKind::Changed => "CHANGED",
        }
    }
}

/// Both contents are absent, or both are there and are equal documents.
pub open spec fn same_content(a: Option<Value>, b: Option<Value>) -> bool {
    match (a, b) {
        (Some(v), Some(w)) => v@.same(w@),
        (None, None) => true,
        _ => false,
    }
}

/// Tests [`same_content`].
fn contents_equal(a: &Option<Value>, b: &Option<Value>) -> (equal: bool)
    ensures
        equal == same_content(*a, *b),
{
    match (a, b) {
        (Some(v), Some(w)) => v.same_as(w),
        (None, None) => true,
        _ => false,
    }
}

impl PartialEq for DiffOp {
    /// The same kind of difference at the same path, with equal content.
    fn eq(&self, other: &DiffOp) -> (equal: bool) {
        self.path == other.path && self.kind == other.kind && contents_equal(
            &self.old,
            &other.old,
        ) && contents_equal(&self.new, &other.new)
    }
}

impl vstd::std_specs::cmp::PartialEqSpecImpl for DiffOp {
    open spec fn obeys_eq_spec() -> bool {
        true
    }

    open spec fn eq_spec(&self, other: &DiffOp) -> bool {
        &&& self.path@ == other.path@
        &&& self.kind == other.kind
        &&& same_content(self.old, other.old)
        &&& same_content(self.new, other.new)
    }
}

impl Clone for DiffOp {
    fn clone(&self) -> (copy: DiffOp)
        ensures
            copy@ == self@,
    {
        DiffOp {
            path: self.path.clone(),
            kind: self.kind,
            old: match &self.old {
                Some(v) => Some(v.clone()),
                None => None,
            },
            new: match &self.new {
                Some(v) => Some(v.clone()),
                None => None,
            },
        }
    }
}

impl DiffOp {
    /// The line that reports this difference, such as `ADDED: a[2]`.
    pub fn headline(&self) -> (line: String)
        ensures
            line@ == headline(self@),
    {
        let mut line = String::from_str(self.kind.label());
        line.append(": ");
        let path = self.path.render();
        line.append(path.as_str());
        line
    }

    /// The record of a node that only the right document has.
    pub fn added(path: Path, new: Value) -> (op: DiffOp)
        ensures
            op@ == added(path@, new@),
    {
        DiffOp { path, kind: DiffKind::Added, old: None, new: Some(new) }
    }

    /// The record of a node that only the left document has.
    pub fn removed(path: Path, old: Value) -> (op: DiffOp)
        ensures
            op@ == removed(path@, old@),
    {
        DiffOp { path, kind: DiffKind::Removed, old: Some(old), new: None }
    }

    /// The record of a node whose content differs between the documents.
    pub fn changed(path: Path, old: Value, new: Value) -> (op: DiffOp)
        ensures
            op@ == changed(path@, old@, new@),
    {
        DiffOp { path, kind: DiffKind::Changed, old: Some(old), new: Some(new) }
    }
}

/// Compares two documents and reports every point at which they differ,
/// parents before children, in the order of [`changes`].
pub fn diff(left: &Value, right: &Value) -> (ops: Vec<DiffOp>)
    ensures
        change_views(ops@) == changes(Seq::empty(), left@, right@),
{
    let mut ops: Vec<DiffOp> = Vec::new();
    let root = Path::root();
    diff_below(&root, left, right, &mut ops);
    ops
}

/// Compares two documents whose containers nest no deeper than `limit`,
/// as [`diff`] does. A document that nests deeper is refused before
/// anything descends into it further than `limit` containers.
pub fn diff_within(left: &Value, right: &Value, limit: usize) -> (result: Option<Vec<DiffOp>>)
    ensures
        match result {
            Some(ops) => {
                &&& left@.depth() <= limit
                &&& right@.depth() <= limit
                &&& change_views(ops@) == changes(Seq::empty(), left@, right@)
            },
            None => left@.depth() > limit || right@.depth() > limit,
        },
{
    if left.nests_within(limit) && right.nests_within(limit) {
        Some(diff(left, right))
    } else {
        None
    }
}

/// Appends the differences between two nodes that stand at `at`.
fn diff_below(at: &Path, left: &Value, right: &Value, out: &mut Vec<DiffOp>)
    ensures
        change_views(final(out)@) == change_views(old(out)@) + changes(at@, left@, right@),
    decreases left,
{
    match (left, right) {
        (Value::Mapping(l), Value::Mapping(r)) => {
            diff_entries(at, l, r, out);
            proof {
                let (lm, rm) = (members(l@), members(r@));
                if left@.same(right@) {
                    lemma_same_left_members(at@, lm, rm, lm.len());
                    lemma_same_right_members(at@, lm, rm, rm.len());
                }
            }
        },
        (Value::Sequence(l), Value::Sequence(r)) => {
            diff_items(at, l, r, out);
            proof {
                if left@.same(right@) {
                    lemma_same_items(at@, trees(l@), trees(r@), l@.len());
                }
            }
        },
        _ => {
            if !left.same_as(right) {
                out.push(DiffOp::changed(at.clone(), left.clone(), right.clone()));
            }
        },
    }
}

/// Appends the differences between the members of two mappings at `at`.
fn diff_entries(at: &Path, l: &Vec<Entry>, r: &Vec<Entry>, out: &mut Vec<DiffOp>)
    ensures
        change_views(final(out)@) == change_views(old(out)@) + (left_member_changes(
            at@,
            members(l@),
            members(r@),
            l@.len(),
        ) + right_member_changes(at@, members(l@), members(r@), r@.len())),
    decreases l,
{
    let ghost lm = members(l@);
    let ghost rm = members(r@);
    let mut i: usize = 0;
    while i < l.len()
        invariant
            i <= l.len(),
            lm == members(l@),
            rm == members(r@),
            change_views(out@) == change_views(old(out)@) + left_member_changes(
                at@,
                lm,
                rm,
                i as nat,
            ),
        decreases l.len() - i,
    {
        let here = at.child_key(&l[i].key);
        let ghost before = out@;
        match find_entry(r, &l[i].key) {
            Some(k) => {
                diff_below(&here, &l[i].value, &r[k].value, out);
            },
            None => {
                out.push(DiffOp::removed(here, l[i].value.clone()));
                assert(change_views(out@) =~= change_views(before).push(
                    removed(at@.push(Step::Key(lm[i as int].0)), lm[i as int].1),
                ));
            },
        }
        i += 1;
    }
    let ghost middle = out@;
    let mut j: usize = 0;
    while j < r.len()
        invariant
            j <= r.len(),
            lm == members(l@),
            rm == members(r@),
            change_views(out@) == change_views(middle) + right_member_changes(
                at@,
                lm,
                rm,
                j as nat,
            ),
        decreases r.len() - j,
    {
        let ghost before = out@;
        if find_entry(l, &r[j].key).is_none() {
            out.push(DiffOp::added(at.child_key(&r[j].key), r[j].value.clone()));
            assert(change_views(out@) =~= change_views(before).push(
                added(at@.push(Step::Key(rm[j as int].0)), rm[j as int].1),
            ));
        }
        j += 1;
    }
}

/// Appends the differences between the items of two sequences at `at`.
fn diff_items(at: &Path, l: &Vec<Value>, r: &Vec<Value>, out: &mut Vec<DiffOp>)
    ensures
        change_views(final(out)@) == change_views(old(out)@) + item_changes(
            at@,
            trees(l@),
            trees(r@),
            longer(l@.len(), r@.len()),
        ),
    decreases l,
{
    let ghost lt = trees(l@);
    let ghost rt = trees(r@);
    let n = if l.len() >= r.len() {
        l.len()
    } else {
        r.len()
    };
    let mut i: usize = 0;
    while i < n
        invariant
            i <= n,
            n == longer(l@.len(), r@.len()),
            lt == trees(l@),
            rt == trees(r@),
            change_views(out@) == change_views(old(out)@) + item_changes(at@, lt, rt, i as nat),
        decreases n - i,
    {
        let here = at.child_index(i);
        let ghost before = out@;
        if i < l.len() && i < r.len() {
            diff_below(&here, &l[i], &r[i], out);
        } else if i < r.len() {
            out.push(DiffOp::added(here, r[i].clone()));
            assert(change_views(out@) =~= change_views(before).push(
                added(at@.push(Step::Index(i as nat)), rt[i as int]),
            ));
        } else {
            out.push(DiffOp::removed(here, l[i].clone()));
            assert(change_views(out@) =~= change_views(before).push(
                removed(at@.push(Step::Index(i as nat)), lt[i as int]),
            ));
        }
        i += 1;
    }
}

} // verus!
