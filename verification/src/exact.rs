//! The reported differences are exactly the differences: each one is
//! true of the two documents, each point of difference is reported, and
//! none is reported twice.

use crate::diff::{
    added, changed, changes, item_changes, item_part, left_member_changes, left_part, longer,
    removed, right_member_changes, right_part, Change, DiffKind,
};
use crate::locality::{
    all_below, lemma_item_part_stays_below, lemma_left_part_stays_below, lemma_same_descends,
};
use crate::locate::{child, lemma_one_step, node_at};
use crate::path::Step;
use crate::value::{each_well_formed, find, lemma_find, lemma_find_own, lookup, Members, Tree};
use vstd::prelude::*;

verus! {

/// The difference `c` is true of the two nodes `left` and `right` that
/// stand at `at`: its path leads from `at` to what it carries as old
/// content in `left` and as new content in `right`; an addition leads
/// nowhere in `left`, a removal nowhere in `right`; and a change is between
/// two unequal nodes that are not containers of one kind.
pub open spec fn holds_between(c: Change, at: Seq<Step>, left: Tree, right: Tree) -> bool {
    let rest = c.path.skip(at.len() as int);
    &&& at.is_prefix_of(c.path)
    &&& match c.kind {
        DiffKind::Added => {
            &&& c.old is None
            &&& c.new is Some
            &&& node_at(left, rest) is None
            &&& node_at(right, rest) == c.new
        },
        DiffKind::Removed => {
            &&& c.old is Some
            &&& c.new is None
            &&& node_at(left, rest) == c.old
            &&& node_at(right, rest) is None
        },
        DiffKind::Changed => {
            &&& c.old matches Some(old)
            &&& c.new matches Some(new)
            &&& node_at(left, rest) == c.old
            &&& node_at(right, rest) == c.new
            &&& !old.same(new)
            &&& !(old is Mapping && new is Mapping)
            &&& !(old is Sequence && new is Sequence)
        },
    }
}

/// Every difference of the run is true of `left` and `right` at `at`.
pub open spec fn all_hold(ops: Seq<Change>, at: Seq<Step>, left: Tree, right: Tree) -> bool {
    forall|k: int| 0 <= k < ops.len() ==> holds_between(#[trigger] ops[k], at, left, right)
}

/// What is true of two children at their place is true of their parents
/// at the parents' place.
proof fn lemma_all_hold_parent(
    ops: Seq<Change>,
    at: Seq<Step>,
    step: Step,
    left: Tree,
    right: Tree,
)
    requires
        child(left, step) is Some,
        child(right, step) is Some,
        all_hold(ops, at.push(step), child(left, step)->Some_0, child(right, step)->Some_0),
    ensures
        all_hold(ops, at, left, right),
{
    let here = at.push(step);
    assert forall|k: int| 0 <= k < ops.len() implies holds_between(
        #[trigger] ops[k],
        at,
        left,
        right,
    ) by {
        let c = ops[k];
        let rest = c.path.skip(at.len() as int);
        assert(c.path.subrange(0, here.len() as int)[at.len() as int] == step);
        assert(rest.drop_first() =~= c.path.skip(here.len() as int));
    }
}

/// Every reported difference is a true one: its path leads to the content
/// it carries, in the document it speaks of.
pub proof fn lemma_changes_hold(at: Seq<Step>, left: Tree, right: Tree)
    requires
        left.well_formed(),
        right.well_formed(),
    ensures
        all_hold(changes(at, left, right), at, left, right),
    decreases left, 0nat,
{
    if !left.same(right) {
        match (left, right) {
            (Tree::Mapping(l), Tree::Mapping(r)) => {
                lemma_left_members_hold(at, l, r, l.len());
                lemma_right_members_hold(at, l, r, r.len());
            },
            (Tree::Sequence(l), Tree::Sequence(r)) => {
                lemma_items_hold(at, l, r, longer(l.len(), r.len()));
            },
            _ => {},
        }
    }
}

/// What the first `n` members of the left mapping add is true of the two
/// mappings.
proof fn lemma_left_members_hold(at: Seq<Step>, l: Members, r: Members, n: nat)
    requires
        Tree::Mapping(l).well_formed(),
        Tree::Mapping(r).well_formed(),
        n <= l.len(),
    ensures
        all_hold(left_member_changes(at, l, r, n), at, Tree::Mapping(l), Tree::Mapping(r)),
    decreases l, n,
{
    if n > 0 {
        let i = n - 1;
        let step = Step::Key(l[i].0);
        let here = at.push(step);
        let (left, right) = (Tree::Mapping(l), Tree::Mapping(r));
        lemma_left_members_hold(at, l, r, i as nat);
        lemma_find_own(l, i);
        lemma_find(r, l[i].0);
        let part = left_part(at, l, r, i);
        match lookup(r, l[i].0) {
            Some(w) => {
                lemma_changes_hold(here, l[i].1, w);
                lemma_all_hold_parent(part, at, step, left, right);
            },
            None => {
                lemma_one_step(left, step);
                let c = part[0];
                assert(c.path.skip(at.len() as int) =~= seq![step]);
            },
        }
    }
}

/// What the first `n` members of the right mapping add is true of the two
/// mappings.
proof fn lemma_right_members_hold(at: Seq<Step>, l: Members, r: Members, n: nat)
    requires
        Tree::Mapping(r).well_formed(),
        n <= r.len(),
    ensures
        all_hold(right_member_changes(at, l, r, n), at, Tree::Mapping(l), Tree::Mapping(r)),
    decreases n,
{
    if n > 0 {
        let j = n - 1;
        let step = Step::Key(r[j].0);
        let (left, right) = (Tree::Mapping(l), Tree::Mapping(r));
        lemma_right_members_hold(at, l, r, j as nat);
        lemma_find_own(r, j);
        let part = right_part(at, l, r, j);
        if find(l, r[j].0) is None {
            lemma_one_step(right, step);
            let c = part[0];
            assert(c.path.skip(at.len() as int) =~= seq![step]);
        }
    }
}

/// What the first `n` positions of two sequences add is true of the two
/// sequences.
proof fn lemma_items_hold(at: Seq<Step>, l: Seq<Tree>, r: Seq<Tree>, n: nat)
    requires
        each_well_formed(l),
        each_well_formed(r),
        n <= longer(l.len(), r.len()),
    ensures
        all_hold(item_changes(at, l, r, n), at, Tree::Sequence(l), Tree::Sequence(r)),
    decreases l, n,
{
    if n > 0 {
        let i = n - 1;
        let step = Step::Index(i as nat);
        let here = at.push(step);
        let (left, right) = (Tree::Sequence(l), Tree::Sequence(r));
        lemma_items_hold(at, l, r, i as nat);
        let part = item_part(at, l, r, i);
        if i < l.len() && i < r.len() {
            lemma_changes_hold(here, l[i], r[i]);
            lemma_all_hold_parent(part, at, step, left, right);
        } else {
            lemma_one_step(left, step);
            lemma_one_step(right, step);
            let c = part[0];
            assert(c.path.skip(at.len() as int) =~= seq![step]);
        }
    }
}

/// Both nodes are there, and they are two mappings or two sequences.
pub open spec fn paired(a: Option<Tree>, b: Option<Tree>) -> bool {
    &&& a matches Some(x)
    &&& b matches Some(y)
    &&& (x is Mapping && y is Mapping) || (x is Sequence && y is Sequence)
}

/// Every proper prefix of the path leads to two mappings or to two
/// sequences: the comparison descends all the way to the path.
pub open spec fn paired_above(left: Tree, right: Tree, path: Seq<Step>) -> bool {
    forall|n: int|
        0 <= n < path.len() ==> paired(
            node_at(left, #[trigger] path.take(n)),
            node_at(right, path.take(n)),
        )
}

/// The difference that two nodes at `path` call for, if they call for one:
/// a change where both are there, are unequal and are not containers of
/// one kind; a removal where only the left one is there; an addition where
/// only the right one is.
pub open spec fn called_for(path: Seq<Step>, l: Option<Tree>, r: Option<Tree>) -> Option<Change> {
    match (l, r) {
        (Some(a), Some(b)) => if a.same(b) || paired(l, r) {
            None
        } else {
            Some(changed(path, a, b))
        },
        (Some(a), None) => Some(removed(path, a)),
        (None, Some(b)) => Some(added(path, b)),
        (None, None) => None,
    }
}

/// A run joined with another holds what either of them holds.
proof fn lemma_contains_concat(a: Seq<Change>, b: Seq<Change>, c: Change)
    requires
        a.contains(c) || b.contains(c),
    ensures
        (a + b).contains(c),
{
    if a.contains(c) {
        let k = choose|k: int| 0 <= k < a.len() && a[k] == c;
        assert((a + b)[k] == c);
    } else {
        let k = choose|k: int| 0 <= k < b.len() && b[k] == c;
        assert((a + b)[a.len() + k] == c);
    }
}

/// What one member of the left mapping adds stands in what the first `n`
/// members add.
proof fn lemma_left_part_reported(
    at: Seq<Step>,
    l: Members,
    r: Members,
    n: nat,
    i: int,
    c: Change,
)
    requires
        0 <= i < n <= l.len(),
        left_part(at, l, r, i).contains(c),
    ensures
        left_member_changes(at, l, r, n).contains(c),
    decreases n,
{
    let m = (n - 1) as nat;
    if i < m {
        lemma_left_part_reported(at, l, r, m, i, c);
    }
    lemma_contains_concat(left_member_changes(at, l, r, m), left_part(at, l, r, m as int), c);
}

/// What one member of the right mapping adds stands in what the first `n`
/// members add.
proof fn lemma_right_part_reported(
    at: Seq<Step>,
    l: Members,
    r: Members,
    n: nat,
    j: int,
    c: Change,
)
    requires
        0 <= j < n <= r.len(),
        right_part(at, l, r, j).contains(c),
    ensures
        right_member_changes(at, l, r, n).contains(c),
    decreases n,
{
    let m = (n - 1) as nat;
    if j < m {
        lemma_right_part_reported(at, l, r, m, j, c);
    }
    lemma_contains_concat(right_member_changes(at, l, r, m), right_part(at, l, r, m as int), c);
}

/// What one position of two sequences adds stands in what the first `n`
/// positions add.
proof fn lemma_item_part_reported(
    at: Seq<Step>,
    l: Seq<Tree>,
    r: Seq<Tree>,
    n: nat,
    i: int,
    c: Change,
)
    requires
        0 <= i < n <= longer(l.len(), r.len()),
        item_part(at, l, r, i).contains(c),
    ensures
        item_changes(at, l, r, n).contains(c),
    decreases n,
{
    let m = (n - 1) as nat;
    if i < m {
        lemma_item_part_reported(at, l, r, m, i, c);
    }
    lemma_contains_concat(item_changes(at, l, r, m), item_part(at, l, r, m as int), c);
}

/// Where the comparison descends to a path of two steps or more, it
/// descends through the first step to the rest of the path.
proof fn lemma_paired_step(left: Tree, right: Tree, path: Seq<Step>)
    requires
        paired_above(left, right, path),
        path.len() > 1,
    ensures
        child(left, path.first()) is Some,
        child(right, path.first()) is Some,
        paired_above(
            child(left, path.first())->Some_0,
            child(right, path.first())->Some_0,
            path.drop_first(),
        ),
{
    let step = path.first();
    let rest = path.drop_first();
    assert(path.take(1) =~= seq![step]);
    assert(paired(node_at(left, path.take(1)), node_at(right, path.take(1))));
    lemma_one_step(left, step);
    lemma_one_step(right, step);
    let lc = child(left, step)->Some_0;
    let rc = child(right, step)->Some_0;
    assert forall|n: int| 0 <= n < rest.len() implies paired(
        node_at(lc, #[trigger] rest.take(n)),
        node_at(rc, rest.take(n)),
    ) by {
        let q = path.take(n + 1);
        assert(q.first() == step);
        assert(q.drop_first() =~= rest.take(n));
        assert(paired(node_at(left, q), node_at(right, q)));
    }
}

/// Every point of difference is reported: where the comparison descends to
/// a path and the two nodes there call for a difference, that difference
/// stands among the reported ones.
pub proof fn lemma_differences_are_reported(
    at: Seq<Step>,
    left: Tree,
    right: Tree,
    path: Seq<Step>,
)
    requires
        paired_above(left, right, path),
        called_for(at + path, node_at(left, path), node_at(right, path)) is Some,
    ensures
        changes(at, left, right).contains(
            called_for(at + path, node_at(left, path), node_at(right, path))->Some_0,
        ),
    decreases path.len(),
{
    let goal = called_for(at + path, node_at(left, path), node_at(right, path))->Some_0;
    if path.len() == 0 {
        assert(at + path =~= at);
        assert(changes(at, left, right)[0] == goal);
    } else {
        let step = path.first();
        let rest = path.drop_first();
        let here = at.push(step);
        assert(here + rest =~= at + path);
        assert(path.take(0) =~= Seq::<Step>::empty());
        assert(paired(node_at(left, path.take(0)), node_at(right, path.take(0))));
        if left.same(right) {
            lemma_same_descends(left, right, path);
        }
        if path.len() > 1 {
            lemma_paired_step(left, right, path);
            lemma_differences_are_reported(
                here,
                child(left, step)->Some_0,
                child(right, step)->Some_0,
                rest,
            );
        } else {
            assert(path =~= seq![step]);
            lemma_one_step(left, step);
            lemma_one_step(right, step);
        }
        match (left, right, step) {
            (Tree::Mapping(l), Tree::Mapping(r), Step::Key(k)) => {
                lemma_find(l, k);
                lemma_find(r, k);
                match find(l, k) {
                    Some(i) => {
                        if path.len() == 1 {
                            assert(left_part(at, l, r, i)[0] == goal);
                        }
                        lemma_left_part_reported(at, l, r, l.len(), i, goal);
                    },
                    None => {
                        let j = find(r, k)->Some_0;
                        assert(right_part(at, l, r, j)[0] == goal);
                        lemma_right_part_reported(at, l, r, r.len(), j, goal);
                    },
                }
                lemma_contains_concat(
                    left_member_changes(at, l, r, l.len()),
                    right_member_changes(at, l, r, r.len()),
                    goal,
                );
            },
            (Tree::Sequence(l), Tree::Sequence(r), Step::Index(i)) => {
                if path.len() == 1 {
                    assert(item_part(at, l, r, i as int)[0] == goal);
                }
                lemma_item_part_reported(at, l, r, longer(l.len(), r.len()), i as int, goal);
            },
            _ => {},
        }
    }
}

/// No two differences of the run have the same path.
pub open spec fn distinct_paths(ops: Seq<Change>) -> bool {
    forall|i: int, j: int|
        0 <= i < j < ops.len() ==> (#[trigger] ops[i]).path != (#[trigger] ops[j]).path
}

/// The step that the path of a difference takes from `at`, if it goes on
/// from there.
pub open spec fn step_after(at: Seq<Step>, c: Change) -> Option<Step> {
    if c.path.len() > at.len() {
        Some(c.path[at.len() as int])
    } else {
        None
    }
}

/// The key of a member among the first `n` of a mapping.
pub open spec fn key_among(all: Members, step: Option<Step>, n: nat) -> bool {
    &&& step matches Some(Step::Key(k))
    &&& find(all, k) matches Some(i)
    &&& i < n
}

/// Two runs without a repeated path, and without a path in common, make
/// one run without a repeated path.
proof fn lemma_distinct_concat(a: Seq<Change>, b: Seq<Change>)
    requires
        distinct_paths(a),
        distinct_paths(b),
        forall|i: int, j: int|
            0 <= i < a.len() && 0 <= j < b.len() ==> (#[trigger] a[i]).path != (
            #[trigger] b[j]).path,
    ensures
        distinct_paths(a + b),
{
    let ab = a + b;
    assert forall|i: int, j: int| 0 <= i < j < ab.len() implies (#[trigger] ab[i]).path != (
    #[trigger] ab[j]).path by {
        if j < a.len() {
            assert(ab[i] == a[i] && ab[j] == a[j]);
        } else if i < a.len() {
            assert(ab[i] == a[i] && ab[j] == b[j - a.len()]);
        } else {
            assert(ab[i] == b[i - a.len()] && ab[j] == b[j - a.len()]);
        }
    }
}

/// What lies at or below a child takes the step to that child.
proof fn lemma_step_below(ops: Seq<Change>, at: Seq<Step>, step: Step)
    requires
        all_below(ops, at.push(step)),
    ensures
        forall|k: int| 0 <= k < ops.len() ==> step_after(at, #[trigger] ops[k]) == Some(step),
{
    let here = at.push(step);
    assert forall|k: int| 0 <= k < ops.len() implies step_after(at, #[trigger] ops[k]) == Some(
        step,
    ) by {
        let p = ops[k].path;
        assert(here.is_prefix_of(p));
        assert(p.subrange(0, here.len() as int)[at.len() as int] == step);
    }
}

/// No path is reported twice: the differences between two well-formed
/// documents have pairwise different paths.
pub proof fn lemma_paths_are_distinct(at: Seq<Step>, left: Tree, right: Tree)
    requires
        left.well_formed(),
        right.well_formed(),
    ensures
        distinct_paths(changes(at, left, right)),
    decreases left, 0nat,
{
    if !left.same(right) {
        match (left, right) {
            (Tree::Mapping(l), Tree::Mapping(r)) => {
                lemma_left_members_distinct(at, l, r, l.len());
                lemma_right_members_distinct(at, l, r, r.len());
                lemma_distinct_concat(
                    left_member_changes(at, l, r, l.len()),
                    right_member_changes(at, l, r, r.len()),
                );
            },
            (Tree::Sequence(l), Tree::Sequence(r)) => {
                assert(each_well_formed(l) && each_well_formed(r));
                lemma_items_distinct(at, l, r, longer(l.len(), r.len()));
            },
            _ => {},
        }
    }
}

/// What the first `n` members of the left mapping add has no repeated
/// path, and every path in it goes on from `at` with the key of one of
/// these members.
proof fn lemma_left_members_distinct(at: Seq<Step>, l: Members, r: Members, n: nat)
    requires
        Tree::Mapping(l).well_formed(),
        Tree::Mapping(r).well_formed(),
        n <= l.len(),
    ensures
        distinct_paths(left_member_changes(at, l, r, n)),
        forall|x: int|
            0 <= x < left_member_changes(at, l, r, n).len() ==> key_among(
                l,
                step_after(at, #[trigger] left_member_changes(at, l, r, n)[x]),
                n,
            ),
    decreases l, n,
{
    if n > 0 {
        let m = (n - 1) as nat;
        let front = left_member_changes(at, l, r, m);
        let part = left_part(at, l, r, m as int);
        let here = at.push(Step::Key(l[m as int].0));
        lemma_left_members_distinct(at, l, r, m);
        lemma_find_own(l, m as int);
        lemma_find(r, l[m as int].0);
        match lookup(r, l[m as int].0) {
            Some(w) => {
                lemma_paths_are_distinct(here, l[m as int].1, w);
            },
            None => {},
        }
        lemma_left_part_stays_below(at, l, r, m as int);
        lemma_step_below(part, at, Step::Key(l[m as int].0));
        lemma_distinct_concat(front, part);
        let all = left_member_changes(at, l, r, n);
        assert(all =~= front + part);
        assert forall|x: int| 0 <= x < all.len() implies key_among(
            l,
            step_after(at, #[trigger] all[x]),
            n,
        ) by {
            if x < front.len() {
                assert(all[x] == front[x]);
            } else {
                assert(all[x] == part[x - front.len()]);
            }
        }
    }
}

/// What the first `n` members of the right mapping add has no repeated
/// path, and every path in it goes on from `at` with the key of one of
/// these members, a key that the left mapping lacks.
proof fn lemma_right_members_distinct(at: Seq<Step>, l: Members, r: Members, n: nat)
    requires
        Tree::Mapping(r).well_formed(),
        n <= r.len(),
    ensures
        distinct_paths(right_member_changes(at, l, r, n)),
        forall|x: int|
            0 <= x < right_member_changes(at, l, r, n).len() ==> key_among(
                r,
                step_after(at, #[trigger] right_member_changes(at, l, r, n)[x]),
                n,
            ) && !key_among(
                l,
                step_after(at, right_member_changes(at, l, r, n)[x]),
                l.len(),
            ),
    decreases n,
{
    if n > 0 {
        let m = (n - 1) as nat;
        let front = right_member_changes(at, l, r, m);
        let part = right_part(at, l, r, m as int);
        let here = at.push(Step::Key(r[m as int].0));
        lemma_right_members_distinct(at, l, r, m);
        lemma_find_own(r, m as int);
        lemma_find(l, r[m as int].0);
        assert(all_below(part, here)) by {
            assert(here =~= here.subrange(0, here.len() as int));
        }
        lemma_step_below(part, at, Step::Key(r[m as int].0));
        lemma_distinct_concat(front, part);
        let all = right_member_changes(at, l, r, n);
        assert(all =~= front + part);
        assert forall|x: int| 0 <= x < all.len() implies key_among(
            r,
            step_after(at, #[trigger] all[x]),
            n,
        ) && !key_among(l, step_after(at, all[x]), l.len()) by {
            if x < front.len() {
                assert(all[x] == front[x]);
            } else {
                assert(all[x] == part[x - front.len()]);
            }
        }
    }
}

/// What the first `n` positions of two sequences add has no repeated
/// path, and every path in it goes on from `at` with one of these
/// positions.
proof fn lemma_items_distinct(at: Seq<Step>, l: Seq<Tree>, r: Seq<Tree>, n: nat)
    requires
        each_well_formed(l),
        each_well_formed(r),
        n <= longer(l.len(), r.len()),
    ensures
        distinct_paths(item_changes(at, l, r, n)),
        forall|x: int|
            0 <= x < item_changes(at, l, r, n).len() ==> (step_after(
                at,
                #[trigger] item_changes(at, l, r, n)[x],
            ) matches Some(Step::Index(i)) && i < n),
    decreases l, n,
{
    if n > 0 {
        let m = (n - 1) as nat;
        let front = item_changes(at, l, r, m);
        let part = item_part(at, l, r, m as int);
        let here = at.push(Step::Index(m));
        lemma_items_distinct(at, l, r, m);
        if m < l.len() && m < r.len() {
            lemma_paths_are_distinct(here, l[m as int], r[m as int]);
        }
        lemma_item_part_stays_below(at, l, r, m as int);
        lemma_step_below(part, at, Step::Index(m));
        lemma_distinct_concat(front, part);
        let all = item_changes(at, l, r, n);
        assert(all =~= front + part);
        assert forall|x: int| 0 <= x < all.len() implies (step_after(at, #[trigger] all[x])
            matches Some(Step::Index(i)) && i < n) by {
            if x < front.len() {
                assert(all[x] == front[x]);
            } else {
                assert(all[x] == part[x - front.len()]);
            }
        }
    }
}

} // verus!
