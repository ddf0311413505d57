//! The listing of a document covers the document: it holds the paths of
//! its nodes and no others.

use crate::enumerate::{item_paths, member_paths, paths_below};
use crate::locate::{child, lemma_one_step, node_at};
use crate::path::Step;
use crate::value::{each_well_formed, find, lemma_find, lemma_find_own, Members, Tree};
use vstd::prelude::*;

verus! {

/// Every path of the run starts with `at` and leads from there to a node
/// of `root`.
pub open spec fn all_address(paths: Seq<Seq<Step>>, at: Seq<Step>, root: Tree) -> bool {
    forall|k: int|
        0 <= k < paths.len() ==> at.is_prefix_of(#[trigger] paths[k]) && node_at(
            root,
            paths[k].skip(at.len() as int),
        ) is Some
}

/// The paths that one child adds to a listing: its own and those below it.
proof fn lemma_child_paths_address(at: Seq<Step>, root: Tree, step: Step)
    requires
        child(root, step) is Some,
        all_address(
            paths_below(at.push(step), child(root, step)->Some_0),
            at.push(step),
            child(root, step)->Some_0,
        ),
    ensures
        all_address(
            seq![at.push(step)] + paths_below(at.push(step), child(root, step)->Some_0),
            at,
            root,
        ),
{
    let here = at.push(step);
    let c = child(root, step)->Some_0;
    let deeper = paths_below(here, c);
    assert(all_address(seq![here], at, root)) by {
        lemma_one_step(root, step);
        assert(here.skip(at.len() as int) =~= seq![step]);
    }
    assert forall|k: int| 0 <= k < deeper.len() implies at.is_prefix_of(#[trigger] deeper[k])
        && node_at(root, deeper[k].skip(at.len() as int)) is Some by {
        let p = deeper[k];
        let rest = p.skip(at.len() as int);
        assert(p.subrange(0, here.len() as int)[at.len() as int] == step);
        assert(rest.drop_first() =~= p.skip(here.len() as int));
    }
}

/// Every listed path addresses a node of the document.
pub proof fn lemma_listed_paths_address_nodes(at: Seq<Step>, root: Tree)
    requires
        root.well_formed(),
    ensures
        all_address(paths_below(at, root), at, root),
    decreases root, 0nat,
{
    match root {
        Tree::Sequence(items) => {
            lemma_item_paths_address(at, items, items.len());
        },
        Tree::Mapping(all) => {
            lemma_member_paths_address(at, all, all.len());
        },
        _ => {},
    }
}

/// What the first `n` items add to a listing addresses nodes of the
/// sequence.
proof fn lemma_item_paths_address(at: Seq<Step>, items: Seq<Tree>, n: nat)
    requires
        each_well_formed(items),
        n <= items.len(),
    ensures
        all_address(item_paths(at, items, n), at, Tree::Sequence(items)),
    decreases items, n,
{
    if n > 0 {
        let i = n - 1;
        let step = Step::Index(i as nat);
        let here = at.push(step);
        let root = Tree::Sequence(items);
        lemma_item_paths_address(at, items, i as nat);
        lemma_listed_paths_address_nodes(here, items[i]);
        lemma_child_paths_address(at, root, step);
        assert(item_paths(at, items, n) =~= item_paths(at, items, i as nat) + (seq![here]
            + paths_below(here, items[i])));
    }
}

/// What the first `n` members add to a listing addresses nodes of the
/// mapping.
proof fn lemma_member_paths_address(at: Seq<Step>, all: Members, n: nat)
    requires
        Tree::Mapping(all).well_formed(),
        n <= all.len(),
    ensures
        all_address(member_paths(at, all, n), at, Tree::Mapping(all)),
    decreases all, n,
{
    if n > 0 {
        let i = n - 1;
        let step = Step::Key(all[i].0);
        let here = at.push(step);
        let root = Tree::Mapping(all);
        lemma_member_paths_address(at, all, i as nat);
        lemma_find_own(all, i);
        lemma_listed_paths_address_nodes(here, all[i].1);
        lemma_child_paths_address(at, root, step);
        assert(member_paths(at, all, n) =~= member_paths(at, all, i as nat) + (seq![here]
            + paths_below(here, all[i].1)));
    }
}

/// What the first `n` items add to a listing holds what each of them adds.
proof fn lemma_item_paths_hold(at: Seq<Step>, items: Seq<Tree>, n: nat, i: int, path: Seq<Step>)
    requires
        0 <= i < n <= items.len(),
        (seq![at.push(Step::Index(i as nat))] + paths_below(
            at.push(Step::Index(i as nat)),
            items[i],
        )).contains(path),
    ensures
        item_paths(at, items, n).contains(path),
    decreases n,
{
    let m = n - 1;
    let here = at.push(Step::Index(m as nat));
    let front = item_paths(at, items, m as nat);
    let part = seq![here] + paths_below(here, items[m]);
    assert(item_paths(at, items, n) =~= front + part);
    if i < m {
        lemma_item_paths_hold(at, items, m as nat, i, path);
        let k = choose|k: int| 0 <= k < front.len() && front[k] == path;
        assert((front + part)[k] == path);
    } else {
        let k = choose|k: int| 0 <= k < part.len() && part[k] == path;
        assert((front + part)[front.len() + k] == path);
    }
}

/// What the first `n` members add to a listing holds what each of them
/// adds.
proof fn lemma_member_paths_hold(at: Seq<Step>, all: Members, n: nat, i: int, path: Seq<Step>)
    requires
        0 <= i < n <= all.len(),
        (seq![at.push(Step::Key(all[i].0))] + paths_below(
            at.push(Step::Key(all[i].0)),
            all[i].1,
        )).contains(path),
    ensures
        member_paths(at, all, n).contains(path),
    decreases n,
{
    let m = n - 1;
    let here = at.push(Step::Key(all[m].0));
    let front = member_paths(at, all, m as nat);
    let part = seq![here] + paths_below(here, all[m].1);
    assert(member_paths(at, all, n) =~= front + part);
    if i < m {
        lemma_member_paths_hold(at, all, m as nat, i, path);
        let k = choose|k: int| 0 <= k < front.len() && front[k] == path;
        assert((front + part)[k] == path);
    } else {
        let k = choose|k: int| 0 <= k < part.len() && part[k] == path;
        assert((front + part)[front.len() + k] == path);
    }
}

/// Every node of the document but the root is listed: a path of at least
/// one step that addresses a node stands in the listing.
pub proof fn lemma_addressed_nodes_are_listed(at: Seq<Step>, root: Tree, path: Seq<Step>)
    requires
        path.len() > 0,
        node_at(root, path) is Some,
    ensures
        paths_below(at, root).contains(at + path),
    decreases path.len(),
{
    let step = path.first();
    let rest = path.drop_first();
    let here = at.push(step);
    let c = child(root, step)->Some_0;
    let part = seq![here] + paths_below(here, c);
    if rest.len() == 0 {
        assert(part[0] == at + path);
    } else {
        lemma_addressed_nodes_are_listed(here, c, rest);
        let deeper = paths_below(here, c);
        let k = choose|k: int| 0 <= k < deeper.len() && deeper[k] == here + rest;
        assert(part[k + 1] == at + path);
    }
    match (root, step) {
        (Tree::Sequence(items), Step::Index(i)) => {
            lemma_item_paths_hold(at, items, items.len(), i as int, at + path);
        },
        (Tree::Mapping(all), Step::Key(key)) => {
            lemma_find(all, key);
            let i = find(all, key)->Some_0;
            lemma_member_paths_hold(at, all, all.len(), i, at + path);
        },
        _ => {},
    }
}

} // verus!
