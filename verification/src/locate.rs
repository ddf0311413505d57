//! Following a path from the root of a document to the node it addresses.

use crate::path::{Path, Segment, Step};
use crate::value::{find_entry, lookup, trees, Tree, Value};
use vstd::prelude::*;

verus! {

/// The child of `node` that one step leads to: the member under a key of a
/// mapping, the item at a position of a sequence. Any other step leads
/// nowhere.
pub open spec fn child(node: Tree, step: Step) -> Option<Tree> {
    match (node, step) {
        (Tree::Mapping(all), Step::Key(k)) => lookup(all, k),
        (Tree::Sequence(items), Step::Index(i)) => if i < items.len() {
            Some(items[i as int])
        } else {
            None
        },
        _ => None,
    }
}

/// The node that `path` addresses below `root`, if it addresses one.
pub open spec fn node_at(root: Tree, path: Seq<Step>) -> Option<Tree>
    decreases path.len(),
{
    if path.len() == 0 {
        Some(root)
    } else {
        match child(root, path.first()) {
            Some(c) => node_at(c, path.drop_first()),
            None => None,
        }
    }
}

impl Value {
    /// The child that one step leads to, see [`child`].
    pub fn child(&self, step: &Segment) -> (found: Option<&Value>)
        ensures
            match found {
                Some(c) => child(self@, step@) == Some(c@),
                None => child(self@, step@) is None,
            },
    {
        match self {
            Value::Mapping(entries) => match step {
                Segment::Key(k) => match find_entry(entries, k) {
                    Some(i) => {
                        Some(&entries[i].value)
                    },
                    None => None,
                },
                Segment::Index(_) => None,
            },
            Value::Sequence(items) => match step {
                Segment::Index(i) => {
                    assert(trees(items@).len() == items.len());
                    if *i < items.len() {
                        Some(&items[*i])
                    } else {
                        None
                    }
                },
                Segment::Key(_) => None,
            },
            _ => None,
        }
    }

    /// The node that the path addresses, see [`node_at`]. The empty path
    /// addresses the document itself.
    pub fn at(&self, path: &Path) -> (found: Option<&Value>)
        ensures
            match found {
                Some(node) => node_at(self@, path@) == Some(node@),
                None => node_at(self@, path@) is None,
            },
    {
        let mut node: &Value = self;
        let mut i: usize = 0;
        assert(path@.skip(0) =~= path@);
        while i < path.segments.len()
            invariant
                i <= path.segments.len(),
                node_at(self@, path@) == node_at(node@, path@.skip(i as int)),
            decreases path.segments.len() - i,
        {
            proof {
                let rest = path@.skip(i as int);
                assert(rest.drop_first() =~= path@.skip(i + 1));
            }
            match node.child(&path.segments[i]) {
                Some(c) => {
                    node = c;
                },
                None => {
                    return None;
                },
            }
            i += 1;
        }
        Some(node)
    }
}

/// A path of one step leads to the child that the step leads to.
pub proof fn lemma_one_step(root: Tree, step: Step)
    ensures
        node_at(root, seq![step]) == child(root, step),
{
    let path = seq![step];
    match child(root, step) {
        Some(c) => {
            assert(node_at(c, path.drop_first()) == Some(c));
        },
        None => {},
    }
}

} // verus!
