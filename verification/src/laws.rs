//! What holds of every comparison, proved from the definitions.

use crate::diff::{
    changed, changes, item_changes, left_member_changes, longer, right_member_changes, Change,
};
use crate::path::Step;
use crate::value::{
    each_well_formed, find, lemma_find, lemma_find_own, lookup, Members, Tree,
};
use vstd::prelude::*;

verus! {

/// A well-formed document is equal to itself.
pub proof fn lemma_same_reflexive(v: Tree)
    requires
        v.well_formed(),
    ensures
        v.same(v),
    decreases v,
{
    match v {
        Tree::Sequence(items) => {
            assert(each_well_formed(items));
            assert forall|i: int| 0 <= i < items.len() implies (#[trigger] items[i]).same(
                items[i],
            ) by {
                lemma_same_reflexive(items[i]);
            }
        },
        Tree::Mapping(all) => {
            assert forall|i: int| 0 <= i < all.len() implies match lookup(
                all,
                (#[trigger] all[i]).0,
            ) {
                Some(w) => all[i].1.same(w),
                None => false,
            } by {
                lemma_find_own(all, i);
                lemma_same_reflexive(all[i].1);
            }
        },
        _ => {},
    }
}

/// Equality of well-formed documents does not depend on which of the two
/// is named first.
pub proof fn lemma_same_symmetric(a: Tree, b: Tree)
    requires
        a.well_formed(),
        b.well_formed(),
        a.same(b),
    ensures
        b.same(a),
    decreases a,
{
    match (a, b) {
        (Tree::Sequence(l), Tree::Sequence(r)) => {
            assert(each_well_formed(l) && each_well_formed(r));
            assert forall|i: int| 0 <= i < r.len() implies (#[trigger] r[i]).same(l[i]) by {
                lemma_same_symmetric(l[i], r[i]);
            }
        },
        (Tree::Mapping(l), Tree::Mapping(r)) => {
            assert forall|j: int| 0 <= j < r.len() implies match lookup(l, (#[trigger] r[j]).0) {
                Some(v) => r[j].1.same(v),
                None => false,
            } by {
                let key = r[j].0;
                lemma_find(l, key);
                let i = find(l, key)->Some_0;
                lemma_find_own(r, j);
                lemma_same_symmetric(l[i].1, r[j].1);
            }
        },
        _ => {},
    }
}

/// The order of the members of a mapping is immaterial: two well-formed
/// mappings with the same members, in whatever order, are equal, and so
/// have no differences.
pub proof fn lemma_member_order_is_immaterial(at: Seq<Step>, l: Members, r: Members)
    requires
        Tree::Mapping(l).well_formed(),
        Tree::Mapping(r).well_formed(),
        forall|i: int| 0 <= i < l.len() ==> r.contains(#[trigger] l[i]),
        forall|j: int| 0 <= j < r.len() ==> l.contains(#[trigger] r[j]),
    ensures
        Tree::Mapping(l).same(Tree::Mapping(r)),
        changes(at, Tree::Mapping(l), Tree::Mapping(r)) == Seq::<Change>::empty(),
{
    assert forall|i: int| 0 <= i < l.len() implies match lookup(r, (#[trigger] l[i]).0) {
        Some(w) => l[i].1.same(w),
        None => false,
    } by {
        let j = choose|j: int| 0 <= j < r.len() && r[j] == l[i];
        lemma_find_own(r, j);
        lemma_same_reflexive(l[i].1);
    }
    assert forall|j: int| 0 <= j < r.len() implies find(l, (#[trigger] r[j]).0) is Some by {
        let i = choose|i: int| 0 <= i < l.len() && l[i] == r[j];
        lemma_find_own(l, i);
    }
}

/// Reflexivity: a well-formed document does not differ from itself.
pub proof fn lemma_diff_reflexive(at: Seq<Step>, v: Tree)
    requires
        v.well_formed(),
    ensures
        changes(at, v, v) == Seq::<Change>::empty(),
{
    lemma_same_reflexive(v);
}

/// Two documents have no differences exactly when they are equal.
pub proof fn lemma_no_changes_iff_same(at: Seq<Step>, left: Tree, right: Tree)
    ensures
        changes(at, left, right).len() == 0 <==> left.same(right),
    decreases left, 0nat,
{
    if !left.same(right) {
        match (left, right) {
            (Tree::Mapping(l), Tree::Mapping(r)) => {
                if changes(at, left, right).len() == 0 {
                    assert forall|i: int| 0 <= i < l.len() implies match lookup(
                        r,
                        (#[trigger] l[i]).0,
                    ) {
                        Some(w) => l[i].1.same(w),
                        None => false,
                    } by {
                        lemma_left_member_silent(at, l, r, l.len(), i);
                    }
                    assert forall|j: int| 0 <= j < r.len() implies find(l, (#[trigger] r[j]).0)
                        is Some by {
                        lemma_right_member_silent(at, l, r, r.len(), j);
                    }
                }
            },
            (Tree::Sequence(l), Tree::Sequence(r)) => {
                if changes(at, left, right).len() == 0 {
                    let n = longer(l.len(), r.len());
                    assert forall|i: int| 0 <= i < l.len() implies (#[trigger] l[i]).same(
                        r[i],
                    ) by {
                        lemma_item_silent(at, l, r, n, i);
                    }
                }
            },
            _ => {},
        }
    }
}

/// Where the first `n` members of the left mapping add no difference, each
/// of them has an equal partner in the right mapping.
proof fn lemma_left_member_silent(at: Seq<Step>, l: Members, r: Members, n: nat, i: int)
    requires
        n <= l.len(),
        0 <= i < n,
        left_member_changes(at, l, r, n).len() == 0,
    ensures
        match lookup(r, l[i].0) {
            Some(w) => l[i].1.same(w),
            None => false,
        },
    decreases l, n,
{
    if i < n - 1 {
        lemma_left_member_silent(at, l, r, (n - 1) as nat, i);
    } else {
        match lookup(r, l[i].0) {
            Some(w) => {
                let here = at.push(Step::Key(l[i].0));
                lemma_no_changes_iff_same(here, l[i].1, w);
            },
            None => {},
        }
    }
}

/// Where the first `n` members of the right mapping add no difference,
/// the left mapping has the key of each of them.
proof fn lemma_right_member_silent(at: Seq<Step>, l: Members, r: Members, n: nat, j: int)
    requires
        n <= r.len(),
        0 <= j < n,
        right_member_changes(at, l, r, n).len() == 0,
    ensures
        find(l, r[j].0) is Some,
    decreases n,
{
    if j < n - 1 {
        lemma_right_member_silent(at, l, r, (n - 1) as nat, j);
    }
}

/// Where the first `n` positions of two sequences add no difference, both
/// sequences reach each of them and hold equal items there.
proof fn lemma_item_silent(at: Seq<Step>, l: Seq<Tree>, r: Seq<Tree>, n: nat, i: int)
    requires
        n <= longer(l.len(), r.len()),
        0 <= i < n,
        item_changes(at, l, r, n).len() == 0,
    ensures
        i < l.len(),
        i < r.len(),
        l[i].same(r[i]),
    decreases l, n,
{
    if i < n - 1 {
        lemma_item_silent(at, l, r, (n - 1) as nat, i);
    } else {
        if i < l.len() && i < r.len() {
            let here = at.push(Step::Index(i as nat));
            lemma_no_changes_iff_same(here, l[i], r[i]);
        }
    }
}

/// One of the two nodes is a container and the other is not a container
/// of the same kind.
pub open spec fn mismatched(left: Tree, right: Tree) -> bool {
    ||| left is Mapping && !(right is Mapping)
    ||| left is Sequence && !(right is Sequence)
    ||| right is Mapping && !(left is Mapping)
    ||| right is Sequence && !(left is Sequence)
}

/// A container against a node of another kind is one change of the whole
/// node: nothing is reported below it.
pub proof fn lemma_mismatch_is_atomic(at: Seq<Step>, left: Tree, right: Tree)
    requires
        mismatched(left, right),
    ensures
        changes(at, left, right) == seq![changed(at, left, right)],
{
}

} // verus!
