//! Where in the documents the differences are reported.

use crate::diff::{
    changed, changes, item_changes, item_part, left_member_changes, left_part, longer,
    right_member_changes, right_part, Change,
};
use crate::laws::mismatched;
use crate::locate::{child, node_at};
use crate::path::Step;
use crate::value::{each_well_formed, find, lemma_find, lookup, Members, Tree};
use vstd::prelude::*;

verus! {

/// The differences of a run that lie at or below `prefix`, in their order.
pub open spec fn below(ops: Seq<Change>, prefix: Seq<Step>) -> Seq<Change>
    decreases ops.len(),
{
    if ops.len() == 0 {
        Seq::empty()
    } else {
        below(ops.drop_last(), prefix) + if prefix.is_prefix_of(ops.last().path) {
            seq![ops.last()]
        } else {
            Seq::empty()
        }
    }
}

/// Every difference of the run lies at or below `prefix`.
pub open spec fn all_below(ops: Seq<Change>, prefix: Seq<Step>) -> bool {
    forall|k: int| 0 <= k < ops.len() ==> prefix.is_prefix_of((#[trigger] ops[k]).path)
}

/// What lies below a prefix in two runs joined is what lies below it in
/// each.
proof fn lemma_below_concat(a: Seq<Change>, b: Seq<Change>, prefix: Seq<Step>)
    ensures
        below(a + b, prefix) == below(a, prefix) + below(b, prefix),
    decreases b.len(),
{
    if b.len() > 0 {
        assert((a + b).drop_last() =~= a + b.drop_last());
        lemma_below_concat(a, b.drop_last(), prefix);
    }
}

/// A run that lies below one child of a node has nothing below another
/// child of that node.
proof fn lemma_below_other_child(
    ops: Seq<Change>,
    at: Seq<Step>,
    other: Step,
    path: Seq<Step>,
)
    requires
        all_below(ops, at.push(other)),
        path.len() > 0,
        path.first() != other,
    ensures
        below(ops, at + path) == Seq::<Change>::empty(),
    decreases ops.len(),
{
    if ops.len() > 0 {
        let front = ops.drop_last();
        lemma_below_other_child(front, at, other, path);
        let p = ops.last().path;
        if (at + path).is_prefix_of(p) {
            assert(p.subrange(0, (at + path).len() as int)[at.len() as int] == path.first());
        }
    }
}

/// Every difference between two nodes is reported at or below the place
/// where the two nodes stand.
pub proof fn lemma_changes_stay_below(at: Seq<Step>, left: Tree, right: Tree)
    ensures
        all_below(changes(at, left, right), at),
    decreases left, 0nat,
{
    if !left.same(right) {
        match (left, right) {
            (Tree::Mapping(l), Tree::Mapping(r)) => {
                lemma_left_members_stay_below(at, l, r, l.len());
                lemma_right_members_stay_below(at, l, r, r.len());
            },
            (Tree::Sequence(l), Tree::Sequence(r)) => {
                lemma_items_stay_below(at, l, r, longer(l.len(), r.len()));
            },
            _ => {},
        }
    }
}

/// What one member of the left mapping adds lies at or below that member.
pub proof fn lemma_left_part_stays_below(at: Seq<Step>, l: Members, r: Members, i: int)
    requires
        0 <= i < l.len(),
    ensures
        all_below(left_part(at, l, r, i), at.push(Step::Key(l[i].0))),
    decreases l, 0nat,
{
    let here = at.push(Step::Key(l[i].0));
    match lookup(r, l[i].0) {
        Some(w) => {
            lemma_changes_stay_below(here, l[i].1, w);
        },
        None => {},
    }
}

/// What the first `n` members of the left mapping add lies at or below the
/// mapping.
proof fn lemma_left_members_stay_below(at: Seq<Step>, l: Members, r: Members, n: nat)
    requires
        n <= l.len(),
    ensures
        all_below(left_member_changes(at, l, r, n), at),
    decreases l, n,
{
    if n > 0 {
        lemma_left_members_stay_below(at, l, r, (n - 1) as nat);
        lemma_left_part_stays_below(at, l, r, n - 1);
    }
}

/// What the first `n` members of the right mapping add lies at or below the
/// mapping.
proof fn lemma_right_members_stay_below(at: Seq<Step>, l: Members, r: Members, n: nat)
    requires
        n <= r.len(),
    ensures
        all_below(right_member_changes(at, l, r, n), at),
    decreases n,
{
    if n > 0 {
        lemma_right_members_stay_below(at, l, r, (n - 1) as nat);
    }
}

/// What one position of two sequences adds lies at or below that position.
pub proof fn lemma_item_part_stays_below(at: Seq<Step>, l: Seq<Tree>, r: Seq<Tree>, i: int)
    requires
        0 <= i < longer(l.len(), r.len()),
    ensures
        all_below(item_part(at, l, r, i), at.push(Step::Index(i as nat))),
    decreases l, 0nat,
{
    let here = at.push(Step::Index(i as nat));
    if i < l.len() && i < r.len() {
        lemma_changes_stay_below(here, l[i], r[i]);
    }
}

/// What the first `n` positions of two sequences add lies at or below the
/// sequences.
proof fn lemma_items_stay_below(at: Seq<Step>, l: Seq<Tree>, r: Seq<Tree>, n: nat)
    requires
        n <= longer(l.len(), r.len()),
    ensures
        all_below(item_changes(at, l, r, n), at),
    decreases l, n,
{
    if n > 0 {
        let i = n - 1;
        lemma_items_stay_below(at, l, r, i as nat);
        lemma_item_part_stays_below(at, l, r, i);
    }
}

/// Equal documents hold equal nodes wherever a path addresses a node, and
/// a path addresses a node in both of them or in neither.
pub proof fn lemma_same_descends(left: Tree, right: Tree, path: Seq<Step>)
    requires
        left.same(right),
    ensures
        match (node_at(left, path), node_at(right, path)) {
            (Some(a), Some(b)) => a.same(b),
            (None, None) => true,
            _ => false,
        },
    decreases path.len(),
{
    if path.len() > 0 {
        match (left, right, path.first()) {
            (Tree::Mapping(l), Tree::Mapping(r), Step::Key(k)) => {
                lemma_find(l, k);
                lemma_find(r, k);
                match (find(l, k), find(r, k)) {
                    (Some(i), _) => {
                        assert(lookup(r, l[i].0) is Some);
                        lemma_same_descends(l[i].1, lookup(r, k)->Some_0, path.drop_first());
                    },
                    (None, Some(j)) => {
                        assert(find(l, r[j].0) is Some);
                    },
                    (None, None) => {},
                }
            },
            (Tree::Sequence(l), Tree::Sequence(r), Step::Index(i)) => {
                if i < l.len() {
                    lemma_same_descends(l[i as int], r[i as int], path.drop_first());
                }
            },
            _ => {},
        }
    }
}

/// Type-mismatch atomicity: where a path addresses a container in one
/// well-formed document and a node of another kind in the other, the
/// comparison reports exactly one difference at or below that path: the
/// change of the whole node, at the path itself.
pub proof fn lemma_mismatch_is_atomic_at(
    at: Seq<Step>,
    left: Tree,
    right: Tree,
    path: Seq<Step>,
)
    requires
        left.well_formed(),
        right.well_formed(),
        node_at(left, path) is Some,
        node_at(right, path) is Some,
        mismatched(node_at(left, path)->Some_0, node_at(right, path)->Some_0),
    ensures
        below(changes(at, left, right), at + path) == seq![
            changed(at + path, node_at(left, path)->Some_0, node_at(right, path)->Some_0),
        ],
    decreases path.len(),
{
    if path.len() == 0 {
        let one = seq![changed(at, left, right)];
        assert(below(one.drop_last(), at) =~= Seq::<Change>::empty());
    } else {
        let step = path.first();
        let rest = path.drop_first();
        let lc = child(left, step)->Some_0;
        let rc = child(right, step)->Some_0;
        let here = at.push(step);
        assert(here + rest =~= at + path);
        match (left, right, step) {
            (Tree::Mapping(lm), Tree::Mapping(rm), Step::Key(k)) => {
                lemma_find(lm, k);
                let i = find(lm, k)->Some_0;
                lemma_find(rm, k);
                lemma_mismatch_is_atomic_at(here, lc, rc, rest);
                lemma_left_members_below(at, lm, rm, lm.len(), path, i);
                lemma_right_members_below(at, lm, rm, rm.len(), path);
                lemma_below_concat(
                    left_member_changes(at, lm, rm, lm.len()),
                    right_member_changes(at, lm, rm, rm.len()),
                    at + path,
                );
            },
            (Tree::Sequence(ls), Tree::Sequence(rs), Step::Index(i)) => {
                assert(each_well_formed(ls) && each_well_formed(rs));
                lemma_mismatch_is_atomic_at(here, lc, rc, rest);
                lemma_items_below(at, ls, rs, longer(ls.len(), rs.len()), path, i as int);
            },
            _ => {},
        }
    }
}

/// Of the first `n` members of the left mapping only the one that the
/// path leads through adds anything at or below the path.
proof fn lemma_left_members_below(
    at: Seq<Step>,
    l: Members,
    r: Members,
    n: nat,
    path: Seq<Step>,
    i: int,
)
    requires
        crate::value::keys_unique(l),
        n <= l.len(),
        0 <= i < l.len(),
        path.len() > 0,
        path.first() == Step::Key(l[i].0),
    ensures
        below(left_member_changes(at, l, r, n), at + path) == if i < n {
            below(left_part(at, l, r, i), at + path)
        } else {
            Seq::<Change>::empty()
        },
    decreases n,
{
    if n > 0 {
        let m = n - 1;
        lemma_left_members_below(at, l, r, m as nat, path, i);
        lemma_below_concat(
            left_member_changes(at, l, r, m as nat),
            left_part(at, l, r, m),
            at + path,
        );
        if m != i {
            lemma_left_part_stays_below(at, l, r, m);
            lemma_below_other_child(left_part(at, l, r, m), at, Step::Key(l[m].0), path);
        }
    }
}

/// The additions of a mapping comparison are not below a key that the left
/// mapping has.
proof fn lemma_right_members_below(
    at: Seq<Step>,
    l: Members,
    r: Members,
    n: nat,
    path: Seq<Step>,
)
    requires
        n <= r.len(),
        path.len() > 0,
        path.first() is Key,
        find(l, path.first()->Key_0) is Some,
    ensures
        below(right_member_changes(at, l, r, n), at + path) == Seq::<Change>::empty(),
    decreases n,
{
    if n > 0 {
        let m = n - 1;
        lemma_right_members_below(at, l, r, m as nat, path);
        lemma_below_concat(
            right_member_changes(at, l, r, m as nat),
            right_part(at, l, r, m),
            at + path,
        );
        if find(l, r[m].0) is None {
            lemma_below_other_child(right_part(at, l, r, m), at, Step::Key(r[m].0), path);
        }
    }
}

/// Of the first `n` positions of two sequences only the one that the path
/// leads through adds anything at or below the path.
proof fn lemma_items_below(
    at: Seq<Step>,
    l: Seq<Tree>,
    r: Seq<Tree>,
    n: nat,
    path: Seq<Step>,
    i: int,
)
    requires
        n <= longer(l.len(), r.len()),
        0 <= i,
        path.len() > 0,
        path.first() == Step::Index(i as nat),
    ensures
        below(item_changes(at, l, r, n), at + path) == if i < n {
            below(item_part(at, l, r, i), at + path)
        } else {
            Seq::<Change>::empty()
        },
    decreases n,
{
    if n > 0 {
        let m = n - 1;
        lemma_items_below(at, l, r, m as nat, path, i);
        lemma_below_concat(item_changes(at, l, r, m as nat), item_part(at, l, r, m), at + path);
        if m != i {
            lemma_item_part_stays_below(at, l, r, m);
            lemma_below_other_child(item_part(at, l, r, m), at, Step::Index(m as nat), path);
        }
    }
}

} // verus!
