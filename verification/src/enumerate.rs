//! Listing the paths of all nodes of one document.

use crate::path::{render, Path, Step};
use crate::value::{members, trees, Entry, Members, Tree, Value};
use vstd::prelude::*;

verus! {

/// The paths of all nodes below `node`, which itself stands at `at`: each
/// child in the order of the document, directly followed by what lies below
/// that child. A scalar and an empty container have nothing below them.
pub open spec fn paths_below(at: Seq<Step>, node: Tree) -> Seq<Seq<Step>>
    decreases node, 0nat,
{
    match node {
        Tree::Sequence(items) => item_paths(at, items, items.len()),
        Tree::Mapping(all) => member_paths(at, all, all.len()),
        _ => Seq::empty(),
    }
}

/// What the first `n` items of a sequence at `at` add to the listing.
pub open spec fn item_paths(at: Seq<Step>, items: Seq<Tree>, n: nat) -> Seq<Seq<Step>>
    decreases items, n,
{
    if n == 0 || n > items.len() {
        Seq::empty()
    } else {
        let here = at.push(Step::Index((n - 1) as nat));
        item_paths(at, items, (n - 1) as nat) + seq![here] + paths_below(here, items[n - 1])
    }
}

/// What the first `n` members of a mapping at `at` add to the listing.
pub open spec fn member_paths(at: Seq<Step>, all: Members, n: nat) -> Seq<Seq<Step>>
    decreases all, n,
{
    if n == 0 || n > all.len() {
        Seq::empty()
    } else {
        let here = at.push(Step::Key(all[n - 1].0));
        member_paths(at, all, (n - 1) as nat) + seq![here] + paths_below(here, all[n - 1].1)
    }
}

/// The models of a run of paths, one for one.
pub open spec fn path_views(paths: Seq<Path>) -> Seq<Seq<Step>> {
    Seq::new(paths.len(), |i: int| paths[i]@)
}

/// The written forms of a run of paths, one for one.
pub open spec fn rendered(paths: Seq<Seq<Step>>) -> Seq<Seq<char>> {
    Seq::new(paths.len(), |i: int| render(paths[i]))
}

/// The views of a run of strings, one for one.
pub open spec fn texts(lines: Seq<String>) -> Seq<Seq<char>> {
    Seq::new(lines.len(), |i: int| lines[i]@)
}

/// Count law: the listing has one path for every node of the document but
/// the root.
pub proof fn lemma_one_path_per_node(at: Seq<Step>, node: Tree)
    ensures
        paths_below(at, node).len() + 1 == node.nodes(),
    decreases node, 0nat,
{
    match node {
        Tree::Sequence(items) => lemma_count_items(at, items, items.len()),
        Tree::Mapping(all) => lemma_count_members(at, all, all.len()),
        _ => {},
    }
}

/// The first `n` items add one path for each of their nodes.
proof fn lemma_count_items(at: Seq<Step>, items: Seq<Tree>, n: nat)
    requires
        n <= items.len(),
    ensures
        item_paths(at, items, n).len() == crate::value::nodes_of_items(items, n),
    decreases items, n,
{
    if n > 0 {
        lemma_count_items(at, items, (n - 1) as nat);
        lemma_one_path_per_node(at.push(Step::Index((n - 1) as nat)), items[n - 1]);
    }
}

/// The first `n` members add one path for each of their nodes.
proof fn lemma_count_members(at: Seq<Step>, all: Members, n: nat)
    requires
        n <= all.len(),
    ensures
        member_paths(at, all, n).len() == crate::value::nodes_of_members(all, n),
    decreases all, n,
{
    if n > 0 {
        lemma_count_members(at, all, (n - 1) as nat);
        lemma_one_path_per_node(at.push(Step::Key(all[n - 1].0)), all[n - 1].1);
    }
}

/// Lists the path of every node of the document but the root, parents
/// before their children, children in the order of the document.
pub fn enumerate(value: &Value) -> (paths: Vec<Path>)
    ensures
        path_views(paths@) == paths_below(Seq::empty(), value@),
        paths.len() + 1 == value@.nodes(),
{
    let mut paths: Vec<Path> = Vec::new();
    let root = Path::root();
    enumerate_below(&root, value, &mut paths);
    proof {
        lemma_one_path_per_node(Seq::empty(), value@);
    }
    paths
}

/// Lists the written form of the path of every node but the root, in the
/// order of [`enumerate`].
pub fn path_strings(value: &Value) -> (lines: Vec<String>)
    ensures
        texts(lines@) == rendered(paths_below(Seq::empty(), value@)),
{
    let paths = enumerate(value);
    let mut lines: Vec<String> = Vec::new();
    let mut i: usize = 0;
    while i < paths.len()
        invariant
            i <= paths.len(),
            lines.len() == i,
            forall|j: int| 0 <= j < i ==> (#[trigger] lines[j])@ == render(paths[j]@),
        decreases paths.len() - i,
    {
        lines.push(paths[i].render());
        i += 1;
    }
    lines
}

/// Lists the paths of a document whose containers nest no deeper than
/// `limit`, as [`enumerate`] does. A document that nests deeper is refused
/// before anything descends into it further than `limit` containers.
pub fn enumerate_within(value: &Value, limit: usize) -> (result: Option<Vec<Path>>)
    ensures
        match result {
            Some(paths) => {
                &&& value@.depth() <= limit
                &&& path_views(paths@) == paths_below(Seq::empty(), value@)
                &&& paths.len() + 1 == value@.nodes()
            },
            None => value@.depth() > limit,
        },
{
    if value.nests_within(limit) {
        Some(enumerate(value))
    } else {
        None
    }
}

/// Lists the written forms of the paths of a document whose containers
/// nest no deeper than `limit`, as [`path_strings`] does, and refuses a
/// document that nests deeper.
pub fn path_strings_within(value: &Value, limit: usize) -> (result: Option<Vec<String>>)
    ensures
        match result {
            Some(lines) => {
                &&& value@.depth() <= limit
                &&& texts(lines@) == rendered(paths_below(Seq::empty(), value@))
            },
            None => value@.depth() > limit,
        },
{
    if value.nests_within(limit) {
        Some(path_strings(value))
    } else {
        None
    }
}

/// Appends the paths of all nodes below `value`, which stands at `at`.
fn enumerate_below(at: &Path, value: &Value, out: &mut Vec<Path>)
    ensures
        path_views(final(out)@) == path_views(old(out)@) + paths_below(at@, value@),
    decreases value,
{
    match value {
        Value::Sequence(items) => enumerate_items(at, items, out),
        Value::Mapping(entries) => enumerate_entries(at, entries, out),
        _ => {},
    }
}

/// Appends the paths of the items of a sequence at `at` and of all nodes
/// below them.
fn enumerate_items(at: &Path, items: &Vec<Value>, out: &mut Vec<Path>)
    ensures
        path_views(final(out)@) == path_views(old(out)@) + item_paths(
            at@,
            trees(items@),
            items@.len(),
        ),
    decreases items,
{
    let ghost all = trees(items@);
    let mut i: usize = 0;
    while i < items.len()
        invariant
            i <= items.len(),
            all == trees(items@),
            path_views(out@) == path_views(old(out)@) + item_paths(at@, all, i as nat),
        decreases items.len() - i,
    {
        let here = at.child_index(i);
        let ghost before = out@;
        out.push(here.clone());
        assert(path_views(out@) =~= path_views(before).push(here@));
        enumerate_below(&here, &items[i], out);
        i += 1;
    }
}

/// Appends the paths of the members of a mapping at `at` and of all nodes
/// below them.
fn enumerate_entries(at: &Path, entries: &Vec<Entry>, out: &mut Vec<Path>)
    ensures
        path_views(final(out)@) == path_views(old(out)@) + member_paths(
            at@,
            members(entries@),
            entries@.len(),
        ),
    decreases entries,
{
    let ghost all = members(entries@);
    let mut i: usize = 0;
    while i < entries.len()
        invariant
            i <= entries.len(),
            all == members(entries@),
            path_views(out@) == path_views(old(out)@) + member_paths(at@, all, i as nat),
        decreases entries.len() - i,
    {
        let here = at.child_key(&entries[i].key);
        let ghost before = out@;
        out.push(here.clone());
        assert(path_views(out@) =~= path_views(before).push(here@));
        enumerate_below(&here, &entries[i].value, out);
        i += 1;
    }
}

} // verus!
