//! Comparing in the other direction gives the same differences, mirrored.

use crate::diff::{
    added, changed, changes, item_changes, item_part, left_member_changes, left_part, longer,
    removed, right_member_changes, right_part, Change, DiffKind,
};
use crate::laws::lemma_same_symmetric;
use crate::path::Step;
use crate::value::{
    each_well_formed, find, keys_unique, lemma_find, lemma_find_own, Members, Tree,
};
use vstd::prelude::*;

verus! {

/// The same difference seen from the other side: an addition becomes a
/// removal and the other way round, and the old and new content change
/// places.
pub open spec fn mirror(c: Change) -> Change {
    Change {
        path: c.path,
        kind: match c.kind {
            DiffKind::Added => DiffKind::Removed,
            DiffKind::Removed => DiffKind::Added,
            DiffKind::Changed => DiffKind::Changed,
        },
        old: c.new,
        new: c.old,
    }
}

/// A run of differences, each one mirrored.
pub open spec fn mirrored(s: Seq<Change>) -> Seq<Change> {
    Seq::new(s.len(), |i: int| mirror(s[i]))
}

/// How often `x` stands in `s`.
pub open spec fn occurrences(s: Seq<Change>, x: Change) -> nat
    decreases s.len(),
{
    if s.len() == 0 {
        0
    } else {
        occurrences(s.drop_last(), x) + if s.last() == x {
            1nat
        } else {
            0nat
        }
    }
}

/// The occurrences in two runs joined are those in each, added up.
proof fn lemma_occurrences_concat(a: Seq<Change>, b: Seq<Change>, x: Change)
    ensures
        occurrences(a + b, x) == occurrences(a, x) + occurrences(b, x),
    decreases b.len(),
{
    if b.len() > 0 {
        assert((a + b).drop_last() =~= a + b.drop_last());
        lemma_occurrences_concat(a, b.drop_last(), x);
    }
}

/// A run of one difference holds that difference once and no other.
proof fn lemma_occurrences_one(c: Change, x: Change)
    ensures
        occurrences(seq![c], x) == if c == x {
            1nat
        } else {
            0nat
        },
{
    assert(occurrences(seq![c].drop_last(), x) == 0);
}

/// A difference stands in the mirrored run as often as its mirror image
/// stands in the run.
proof fn lemma_occurrences_mirrored(s: Seq<Change>, x: Change)
    ensures
        occurrences(mirrored(s), x) == occurrences(s, mirror(x)),
    decreases s.len(),
{
    if s.len() > 0 {
        assert(mirrored(s).drop_last() =~= mirrored(s.drop_last()));
        lemma_occurrences_mirrored(s.drop_last(), x);
    }
}

/// The occurrences are what the multiset of the run counts.
pub proof fn lemma_occurrences_count(s: Seq<Change>, x: Change)
    ensures
        s.to_multiset().count(x) == occurrences(s, x),
    decreases s.len(),
{
    broadcast use vstd::multiset::group_multiset_axioms;

    if s.len() == 0 {
        s.to_multiset_ensures();
    } else {
        let front = s.drop_last();
        assert(front.push(s.last()) =~= s);
        vstd::seq_lib::to_multiset_build(front, s.last());
        lemma_occurrences_count(front, x);
    }
}

/// The sum of `f` over the first `n` positions.
pub open spec fn total(n: nat, f: spec_fn(int) -> nat) -> nat
    decreases n,
{
    if n == 0 {
        0
    } else {
        total((n - 1) as nat, f) + f(n - 1)
    }
}

/// Sums of functions that agree on the first `n` positions are equal.
proof fn lemma_total_pointwise(n: nat, f: spec_fn(int) -> nat, g: spec_fn(int) -> nat)
    requires
        forall|i: int| 0 <= i < n ==> #[trigger] f(i) == g(i),
    ensures
        total(n, f) == total(n, g),
    decreases n,
{
    if n > 0 {
        lemma_total_pointwise((n - 1) as nat, f, g);
    }
}

/// The sum of a sum of two functions is the sum of their sums.
proof fn lemma_total_split(
    n: nat,
    f: spec_fn(int) -> nat,
    g: spec_fn(int) -> nat,
    h: spec_fn(int) -> nat,
)
    requires
        forall|i: int| 0 <= i < n ==> #[trigger] f(i) == g(i) + h(i),
    ensures
        total(n, f) == total(n, g) + total(n, h),
    decreases n,
{
    if n > 0 {
        lemma_total_split((n - 1) as nat, f, g, h);
    }
}

/// A function that is `c` at `k` and zero elsewhere sums to `c` if `k` is
/// among the positions, and to zero if not.
proof fn lemma_total_one(n: nat, f: spec_fn(int) -> nat, k: int, c: nat)
    requires
        forall|i: int| 0 <= i < n ==> #[trigger] f(i) == if i == k {
            c
        } else {
            0nat
        },
    ensures
        total(n, f) == if 0 <= k < n {
            c
        } else {
            0nat
        },
    decreases n,
{
    if n > 0 {
        lemma_total_one((n - 1) as nat, f, k, c);
    }
}

/// The occurrences in what the first `n` members of the left mapping add,
/// member by member.
proof fn lemma_left_total(
    at: Seq<Step>,
    l: Members,
    r: Members,
    n: nat,
    x: Change,
    f: spec_fn(int) -> nat,
)
    requires
        n <= l.len(),
        forall|i: int| 0 <= i < n ==> #[trigger] f(i) == occurrences(left_part(at, l, r, i), x),
    ensures
        occurrences(left_member_changes(at, l, r, n), x) == total(n, f),
    decreases n,
{
    if n > 0 {
        lemma_left_total(at, l, r, (n - 1) as nat, x, f);
        lemma_occurrences_concat(
            left_member_changes(at, l, r, (n - 1) as nat),
            left_part(at, l, r, n - 1),
            x,
        );
    }
}

/// The occurrences in what the first `n` members of the right mapping
/// add, member by member.
proof fn lemma_right_total(
    at: Seq<Step>,
    l: Members,
    r: Members,
    n: nat,
    x: Change,
    f: spec_fn(int) -> nat,
)
    requires
        n <= r.len(),
        forall|j: int| 0 <= j < n ==> #[trigger] f(j) == occurrences(right_part(at, l, r, j), x),
    ensures
        occurrences(right_member_changes(at, l, r, n), x) == total(n, f),
    decreases n,
{
    if n > 0 {
        lemma_right_total(at, l, r, (n - 1) as nat, x, f);
        lemma_occurrences_concat(
            right_member_changes(at, l, r, (n - 1) as nat),
            right_part(at, l, r, n - 1),
            x,
        );
    }
}

/// The partners of the first `n` members of `l`: position `j` of `r` counts
/// with `c(j)` when its key stands among them.
spec fn partners(l: Members, r: Members, c: spec_fn(int) -> nat, n: nat) -> spec_fn(int) -> nat {
    |j: int|
        match find(l, r[j].0) {
            Some(i) => if i < n {
                c(j)
            } else {
                0nat
            },
            None => 0nat,
        }
}

/// The sum along the first `n` members of the left mapping is the sum over
/// their partners in the right one.
proof fn lemma_exchange_upto(
    l: Members,
    r: Members,
    c: spec_fn(int) -> nat,
    f: spec_fn(int) -> nat,
    n: nat,
)
    requires
        keys_unique(l),
        keys_unique(r),
        n <= l.len(),
        forall|i: int|
            0 <= i < l.len() ==> #[trigger] f(i) == match find(r, l[i].0) {
                Some(j) => c(j),
                None => 0nat,
            },
    ensures
        total(n, f) == total(r.len(), partners(l, r, c, n)),
    decreases n,
{
    if n == 0 {
        let zero = |j: int| 0nat;
        assert forall|j: int| 0 <= j < r.len() implies #[trigger] partners(l, r, c, 0)(j)
            == zero(j) by {
            lemma_find(l, r[j].0);
        }
        lemma_total_pointwise(r.len(), partners(l, r, c, 0), zero);
        lemma_total_one(r.len(), zero, -1, 0);
    } else {
        let m = (n - 1) as nat;
        lemma_exchange_upto(l, r, c, f, m);
        let key = l[m as int].0;
        lemma_find(r, key);
        let k = match find(r, key) {
            Some(j) => j,
            None => -1,
        };
        let v = match find(r, key) {
            Some(j) => c(j),
            None => 0nat,
        };
        let last = |j: int|
            if j == k {
                v
            } else {
                0nat
            };
        assert forall|j: int| 0 <= j < r.len() implies #[trigger] partners(l, r, c, n)(j)
            == partners(l, r, c, m)(j) + last(j) by {
            lemma_find(l, r[j].0);
        }
        lemma_total_split(r.len(), partners(l, r, c, n), partners(l, r, c, m), last);
        lemma_total_one(r.len(), last, k, v);
    }
}

/// A sum over the keys that two mappings with unique keys share is the
/// same along the left mapping and along the right one.
proof fn lemma_exchange(
    l: Members,
    r: Members,
    c: spec_fn(int) -> nat,
    f: spec_fn(int) -> nat,
    g: spec_fn(int) -> nat,
)
    requires
        keys_unique(l),
        keys_unique(r),
        forall|i: int|
            0 <= i < l.len() ==> #[trigger] f(i) == match find(r, l[i].0) {
                Some(j) => c(j),
                None => 0nat,
            },
        forall|j: int|
            0 <= j < r.len() ==> #[trigger] g(j) == if find(l, r[j].0) is Some {
                c(j)
            } else {
                0nat
            },
    ensures
        total(l.len(), f) == total(r.len(), g),
{
    lemma_exchange_upto(l, r, c, f, l.len());
    assert forall|j: int| 0 <= j < r.len() implies #[trigger] partners(l, r, c, l.len())(j) == g(
        j,
    ) by {
        lemma_find(l, r[j].0);
    }
    lemma_total_pointwise(r.len(), partners(l, r, c, l.len()), g);
}

/// The occurrences in what the first `n` positions add are those of the
/// positions before the last and those of the last.
proof fn lemma_item_total(at: Seq<Step>, l: Seq<Tree>, r: Seq<Tree>, n: nat, x: Change)
    requires
        0 < n <= longer(l.len(), r.len()),
    ensures
        occurrences(item_changes(at, l, r, n), x) == occurrences(
            item_changes(at, l, r, (n - 1) as nat),
            x,
        ) + occurrences(item_part(at, l, r, n - 1), x),
{
    lemma_occurrences_concat(
        item_changes(at, l, r, (n - 1) as nat),
        item_part(at, l, r, n - 1),
        x,
    );
}

/// Every difference stands as often in the comparison of `b` with `a` as
/// its mirror image stands in the comparison of `a` with `b`.
pub proof fn lemma_mirror_occurrences(at: Seq<Step>, a: Tree, b: Tree, x: Change)
    requires
        a.well_formed(),
        b.well_formed(),
    ensures
        occurrences(changes(at, b, a), x) == occurrences(changes(at, a, b), mirror(x)),
    decreases a, 0nat,
{
    if a.same(b) {
        lemma_same_symmetric(a, b);
    } else {
        if b.same(a) {
            lemma_same_symmetric(b, a);
        }
        match (a, b) {
            (Tree::Mapping(l), Tree::Mapping(r)) => {
                lemma_mirror_members(at, l, r, x);
            },
            (Tree::Sequence(l), Tree::Sequence(r)) => {
                lemma_mirror_items(at, l, r, longer(l.len(), r.len()), x);
            },
            _ => {
                lemma_occurrences_one(changed(at, a, b), mirror(x));
                lemma_occurrences_one(changed(at, b, a), x);
            },
        }
    }
}

/// The first `n` positions of two sequences, compared in the other
/// direction, add the mirrored differences.
proof fn lemma_mirror_items(at: Seq<Step>, l: Seq<Tree>, r: Seq<Tree>, n: nat, x: Change)
    requires
        each_well_formed(l),
        each_well_formed(r),
        n <= longer(l.len(), r.len()),
    ensures
        occurrences(item_changes(at, r, l, n), x) == occurrences(
            item_changes(at, l, r, n),
            mirror(x),
        ),
    decreases l, n,
{
    if n > 0 {
        let i = n - 1;
        let here = at.push(Step::Index(i as nat));
        lemma_mirror_items(at, l, r, i as nat, x);
        lemma_item_total(at, l, r, n, mirror(x));
        lemma_item_total(at, r, l, n, x);
        if i < l.len() && i < r.len() {
            lemma_mirror_occurrences(here, l[i], r[i], x);
        } else if i < r.len() {
            lemma_occurrences_one(added(here, r[i]), mirror(x));
            lemma_occurrences_one(removed(here, r[i]), x);
        } else {
            lemma_occurrences_one(removed(here, l[i]), mirror(x));
            lemma_occurrences_one(added(here, l[i]), x);
        }
    }
}

/// Two mappings compared in the other direction give the mirrored
/// differences, each as often.
proof fn lemma_mirror_members(at: Seq<Step>, l: Members, r: Members, x: Change)
    requires
        Tree::Mapping(l).well_formed(),
        Tree::Mapping(r).well_formed(),
    ensures
        occurrences(
            left_member_changes(at, r, l, r.len()) + right_member_changes(at, r, l, l.len()),
            x,
        ) == occurrences(
            left_member_changes(at, l, r, l.len()) + right_member_changes(at, l, r, r.len()),
            mirror(x),
        ),
    decreases l, 0nat,
{
    let y = mirror(x);
    let a = |i: int| occurrences(left_part(at, l, r, i), y);
    let b = |j: int| occurrences(right_part(at, l, r, j), y);
    let c = |j: int| occurrences(left_part(at, r, l, j), x);
    let d = |i: int| occurrences(right_part(at, r, l, i), x);
    lemma_left_total(at, l, r, l.len(), y, a);
    lemma_right_total(at, l, r, r.len(), y, b);
    lemma_left_total(at, r, l, r.len(), x, c);
    lemma_right_total(at, r, l, l.len(), x, d);
    lemma_occurrences_concat(
        left_member_changes(at, l, r, l.len()),
        right_member_changes(at, l, r, r.len()),
        y,
    );
    lemma_occurrences_concat(
        left_member_changes(at, r, l, r.len()),
        right_member_changes(at, r, l, l.len()),
        x,
    );
    let a2 = |i: int|
        match find(r, l[i].0) {
            Some(j) => c(j),
            None => 0nat,
        };
    let c2 = |j: int|
        if find(l, r[j].0) is Some {
            c(j)
        } else {
            0nat
        };
    assert forall|i: int| 0 <= i < l.len() implies #[trigger] a(i) == a2(i) + d(i) by {
        let here = at.push(Step::Key(l[i].0));
        lemma_find(r, l[i].0);
        match find(r, l[i].0) {
            Some(j) => {
                lemma_find_own(l, i);
                lemma_mirror_occurrences(here, l[i].1, r[j].1, x);
            },
            None => {
                lemma_occurrences_one(removed(here, l[i].1), y);
                lemma_occurrences_one(added(here, l[i].1), x);
            },
        }
    }
    assert forall|j: int| 0 <= j < r.len() implies #[trigger] c(j) == c2(j) + b(j) by {
        let here = at.push(Step::Key(r[j].0));
        match find(l, r[j].0) {
            Some(i) => {},
            None => {
                lemma_occurrences_one(removed(here, r[j].1), x);
                lemma_occurrences_one(added(here, r[j].1), y);
            },
        }
    }
    lemma_total_split(l.len(), a, a2, d);
    lemma_total_split(r.len(), c, c2, b);
    lemma_exchange(l, r, c, a2, c2);
}

/// Symmetry: comparing two well-formed documents in the other direction
/// gives the same differences with additions and removals exchanged and
/// old and new content exchanged. The order of the differences may be
/// another, so the two runs are equal as multisets.
pub proof fn lemma_diff_symmetric(at: Seq<Step>, a: Tree, b: Tree)
    requires
        a.well_formed(),
        b.well_formed(),
    ensures
        changes(at, b, a).to_multiset() == mirrored(changes(at, a, b)).to_multiset(),
{
    let there = changes(at, b, a).to_multiset();
    let back = mirrored(changes(at, a, b)).to_multiset();
    assert forall|x: Change| there.count(x) == back.count(x) by {
        lemma_occurrences_count(changes(at, b, a), x);
        lemma_occurrences_count(mirrored(changes(at, a, b)), x);
        lemma_occurrences_mirrored(changes(at, a, b), x);
        lemma_mirror_occurrences(at, a, b, x);
    }
}

} // verus!
