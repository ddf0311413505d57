//! The document tree and its mathematical model.

use vstd::prelude::*;

verus! {

/// A number as a document holds it. No form is ever read as another: the
/// integer one and the floating-point one are different numbers.
#[derive(Clone, Copy, Debug, PartialEq, Eq, Structural)]
pub enum Number {
    /// A non-negative integer.
    PosInt(u64),
    /// A negative integer.
    NegInt(i64),
    /// A binary64 floating-point number, kept as its bit pattern: two of
    /// them are the same number when their patterns are the same.
    Float(u64),
}

/// One member of a mapping: a key and the value stored under it.
#[derive(Debug)]
pub struct Entry {
    pub key: String,
    pub value: Value,
}

/// A node of a document tree.
///
/// A mapping keeps its members in the order of the document. It is
/// well formed when no key occurs twice in it, see [`Value::is_well_formed`].
#[derive(Debug)]
pub enum Value {
    Null,
    Bool(bool),
    Number(Number),
    String(String),
    Sequence(Vec<Value>),
    Mapping(Vec<Entry>),
}

/// The members of a mapping in the model: keys with their trees, in order.
pub type Members = Seq<(Seq<char>, Tree)>;

/// The mathematical model of a [`Value`].
pub enum Tree {
    Null,
    Bool(bool),
    Number(Number),
    Text(Seq<char>),
    Sequence(Seq<Tree>),
    Mapping(Members),
}

impl View for Entry {
    type V = (Seq<char>, Tree);

    open spec fn view(&self) -> (Seq<char>, Tree) {
        (self.key@, self.value@)
    }
}

impl View for Value {
    type V = Tree;

    open spec fn view(&self) -> Tree
        decreases self,
    {
        match self {
            Value::Null => Tree::Null,
            Value::Bool(b) => Tree::Bool(*b),
            Value::Number(n) => Tree::Number(*n),
            Value::String(s) => Tree::Text(s@),
            Value::Sequence(items) => Tree::Sequence(trees(items@)),
            Value::Mapping(entries) => Tree::Mapping(members(entries@)),
        }
    }
}

/// The trees of a run of values, one for one.
pub open spec fn trees(items: Seq<Value>) -> Seq<Tree>
    decreases items,
{
    Seq::new(
        items.len(),
        |i: int|
            if 0 <= i < items.len() {
                items[i]@
            } else {
                Tree::Null
            },
    )
}

/// The members of a run of entries, one for one.
pub open spec fn members(entries: Seq<Entry>) -> Members
    decreases entries,
{
    Seq::new(
        entries.len(),
        |i: int|
            if 0 <= i < entries.len() {
                (entries[i].key@, entries[i].value@)
            } else {
                (Seq::empty(), Tree::Null)
            },
    )
}

/// The position of the first member with the given key, if there is one.
pub open spec fn find(all: Members, key: Seq<char>) -> Option<int>
    decreases all.len(),
{
    if all.len() == 0 {
        None
    } else {
        match find(all.drop_last(), key) {
            Some(i) => Some(i),
            None => if all.last().0 == key {
                Some(all.len() - 1)
            } else {
                None
            },
        }
    }
}

/// The tree stored under the given key, if the key is there.
pub open spec fn lookup(all: Members, key: Seq<char>) -> Option<Tree> {
    match find(all, key) {
        Some(i) => Some(all[i].1),
        None => None,
    }
}

/// No key occurs twice.
pub open spec fn keys_unique(all: Members) -> bool {
    forall|i: int, j: int|
        0 <= i < all.len() && 0 <= j < all.len() && i != j ==> (#[trigger] all[i]).0 != (
        #[trigger] all[j]).0
}

impl Tree {
    /// Every mapping in the tree has unique keys.
    pub open spec fn well_formed(self) -> bool
        decreases self, 0nat,
    {
        match self {
            Tree::Sequence(items) => each_well_formed(items),
            Tree::Mapping(all) => keys_unique(all) && forall|i: int|
                0 <= i < all.len() ==> (#[trigger] all[i]).1.well_formed(),
            _ => true,
        }
    }

    /// The number of nodes of the tree, the root included.
    pub open spec fn nodes(self) -> nat
        decreases self, 0nat,
    {
        match self {
            Tree::Sequence(items) => 1 + nodes_of_items(items, items.len()),
            Tree::Mapping(all) => 1 + nodes_of_members(all, all.len()),
            _ => 1,
        }
    }

    /// How deep the containers of the tree nest: a scalar has depth 0, a
    /// container one more than the deepest of its children.
    pub open spec fn depth(self) -> nat
        decreases self, 0nat,
    {
        match self {
            Tree::Sequence(items) => 1 + deepest_item(items, items.len()),
            Tree::Mapping(all) => 1 + deepest_member(all, all.len()),
            _ => 0,
        }
    }

    /// Equality of documents. Two sequences are equal when they are equal
    /// position by position. Two mappings are equal when they have the same
    /// keys and hold equal values under each key, in whatever order the
    /// members stand. Anything else is equal only to itself.
    pub open spec fn same(self, other: Tree) -> bool
        decreases self,
    {
        match (self, other) {
            (Tree::Sequence(l), Tree::Sequence(r)) => l.len() == r.len() && forall|i: int|
                0 <= i < l.len() ==> (#[trigger] l[i]).same(r[i]),
            (Tree::Mapping(l), Tree::Mapping(r)) => {
                &&& forall|i: int|
                    0 <= i < l.len() ==> match lookup(r, (#[trigger] l[i]).0) {
                        Some(w) => l[i].1.same(w),
                        None => false,
                    }
                &&& forall|j: int| 0 <= j < r.len() ==> find(l, (#[trigger] r[j]).0) is Some
            },
            _ => self == other,
        }
    }
}

/// Every tree of the run is well formed.
pub open spec fn each_well_formed(items: Seq<Tree>) -> bool
    decreases items, 1nat,
{
    forall|i: int| 0 <= i < items.len() ==> (#[trigger] items[i]).well_formed()
}

/// The nodes in the first `n` trees of a run.
pub open spec fn nodes_of_items(items: Seq<Tree>, n: nat) -> nat
    decreases items, n,
{
    if n == 0 || n > items.len() {
        0
    } else {
        nodes_of_items(items, (n - 1) as nat) + items[n - 1].nodes()
    }
}

/// The nodes in the trees of the first `n` members of a mapping.
pub open spec fn nodes_of_members(all: Members, n: nat) -> nat
    decreases all, n,
{
    if n == 0 || n > all.len() {
        0
    } else {
        nodes_of_members(all, (n - 1) as nat) + all[n - 1].1.nodes()
    }
}

/// The depth of the deepest of the first `n` trees of a run.
pub open spec fn deepest_item(items: Seq<Tree>, n: nat) -> nat
    decreases items, n,
{
    if n == 0 || n > items.len() {
        0
    } else {
        let front = deepest_item(items, (n - 1) as nat);
        let last = items[n - 1].depth();
        if front >= last {
            front
        } else {
            last
        }
    }
}

/// The depth of the deepest tree among the first `n` members of a mapping.
pub open spec fn deepest_member(all: Members, n: nat) -> nat
    decreases all, n,
{
    if n == 0 || n > all.len() {
        0
    } else {
        let front = deepest_member(all, (n - 1) as nat);
        let last = all[n - 1].1.depth();
        if front >= last {
            front
        } else {
            last
        }
    }
}

/// The deepest of the first `n` trees is within a bound exactly when each
/// of them is.
pub proof fn lemma_deepest_item(items: Seq<Tree>, n: nat, bound: nat)
    requires
        n <= items.len(),
    ensures
        deepest_item(items, n) <= bound <==> forall|i: int|
            0 <= i < n ==> (#[trigger] items[i]).depth() <= bound,
    decreases n,
{
    if n > 0 {
        lemma_deepest_item(items, (n - 1) as nat, bound);
    }
}

/// The deepest of the first `n` members is within a bound exactly when
/// each of them is.
pub proof fn lemma_deepest_member(all: Members, n: nat, bound: nat)
    requires
        n <= all.len(),
    ensures
        deepest_member(all, n) <= bound <==> forall|i: int|
            0 <= i < n ==> (#[trigger] all[i]).1.depth() <= bound,
    decreases n,
{
    if n > 0 {
        lemma_deepest_member(all, (n - 1) as nat, bound);
    }
}

/// What [`find`] returns, said without recursion: the first position that
/// has the key, or nothing when no position has it.
pub proof fn lemma_find(all: Members, key: Seq<char>)
    ensures
        match find(all, key) {
            Some(i) => 0 <= i < all.len() && all[i].0 == key && forall|j: int|
                0 <= j < i ==> (#[trigger] all[j]).0 != key,
            None => forall|j: int| 0 <= j < all.len() ==> (#[trigger] all[j]).0 != key,
        },
    decreases all.len(),
{
    if all.len() > 0 {
        lemma_find(all.drop_last(), key);
        let front = all.drop_last();
        assert(forall|j: int| 0 <= j < front.len() ==> front[j] == all[j]);
    }
}

/// A position that has the key, with no earlier one that has it, is the one
/// that [`find`] returns.
pub proof fn lemma_find_first(all: Members, key: Seq<char>, i: int)
    requires
        0 <= i < all.len(),
        all[i].0 == key,
        forall|j: int| 0 <= j < i ==> (#[trigger] all[j]).0 != key,
    ensures
        find(all, key) == Some(i),
{
    lemma_find(all, key);
}

/// In a mapping with unique keys every member is found under its own key.
pub proof fn lemma_find_own(all: Members, i: int)
    requires
        keys_unique(all),
        0 <= i < all.len(),
    ensures
        find(all, all[i].0) == Some(i),
        lookup(all, all[i].0) == Some(all[i].1),
{
    lemma_find(all, all[i].0);
}

/// Finds the first entry with the given key.
pub fn find_entry(entries: &Vec<Entry>, key: &String) -> (found: Option<usize>)
    ensures
        match found {
            Some(i) => find(members(entries@), key@) == Some(i as int) && i < entries.len(),
            None => find(members(entries@), key@) is None,
        },
{
    let mut i: usize = 0;
    while i < entries.len()
        invariant
            i <= entries.len(),
            forall|j: int| 0 <= j < i ==> (#[trigger] members(entries@)[j]).0 != key@,
        decreases entries.len() - i,
    {
        if entries[i].key == *key {
            proof {
                lemma_find_first(members(entries@), key@, i as int);
            }
            return Some(i);
        }
        i += 1;
    }
    proof {
        lemma_find(members(entries@), key@);
    }
    None
}

impl Clone for Entry {
    /// An independent copy of the entry.
    fn clone(&self) -> (copy: Entry)
        ensures
            copy@ == self@,
        decreases self,
    {
        Entry { key: self.key.clone(), value: self.value.clone() }
    }
}

impl Clone for Value {
    /// An independent copy of the whole tree.
    fn clone(&self) -> (copy: Value)
        ensures
            copy@ == self@,
        decreases self,
    {
        match self {
            Value::Null => Value::Null,
            Value::Bool(b) => Value::Bool(*b),
            Value::Number(n) => Value::Number(*n),
            Value::String(s) => Value::String(s.clone()),
            Value::Sequence(items) => Value::Sequence(clone_items(items)),
            Value::Mapping(entries) => Value::Mapping(clone_entries(entries)),
        }
    }
}

/// Copies the items of a sequence.
fn clone_items(items: &Vec<Value>) -> (copy: Vec<Value>)
    ensures
        trees(copy@) == trees(items@),
    decreases items,
{
    let mut copy: Vec<Value> = Vec::new();
    let mut i: usize = 0;
    while i < items.len()
        invariant
            i <= items.len(),
            copy.len() == i,
            forall|j: int| 0 <= j < i ==> (#[trigger] copy[j])@ == items[j]@,
        decreases items.len() - i,
    {
        copy.push(items[i].clone());
        i += 1;
    }
    copy
}

/// Copies the members of a mapping.
fn clone_entries(entries: &Vec<Entry>) -> (copy: Vec<Entry>)
    ensures
        members(copy@) == members(entries@),
    decreases entries,
{
    let mut copy: Vec<Entry> = Vec::new();
    let mut i: usize = 0;
    while i < entries.len()
        invariant
            i <= entries.len(),
            copy.len() == i,
            forall|j: int| 0 <= j < i ==> (#[trigger] copy[j])@ == entries[j]@,
        decreases entries.len() - i,
    {
        copy.push(entries[i].clone());
        i += 1;
    }
    copy
}

impl PartialEq for Value {
    /// Document equality, see [`Value::same_as`].
    fn eq(&self, other: &Value) -> (equal: bool) {
        self.same_as(other)
    }
}

impl vstd::std_specs::cmp::PartialEqSpecImpl for Value {
    open spec fn obeys_eq_spec() -> bool {
        true
    }

    open spec fn eq_spec(&self, other: &Value) -> bool {
        self@.same(other@)
    }
}

impl Value {
    /// Document equality, see [`Tree::same`]: members of a mapping are
    /// matched by key, not by position.
    pub fn same_as(&self, other: &Value) -> (equal: bool)
        ensures
            equal == self@.same(other@),
        decreases self,
    {
        match (self, other) {
            (Value::Null, Value::Null) => true,
            (Value::Bool(a), Value::Bool(b)) => *a == *b,
            (Value::Number(a), Value::Number(b)) => *a == *b,
            (Value::String(a), Value::String(b)) => *a == *b,
            (Value::Sequence(l), Value::Sequence(r)) => same_items(l, r),
            (Value::Mapping(l), Value::Mapping(r)) => same_members(l, r),
            _ => false,
        }
    }

    /// Whether the containers of the tree nest no deeper than `limit`, see
    /// [`Tree::depth`]. The test itself descends no deeper than `limit`
    /// containers, whatever the tree.
    pub fn nests_within(&self, limit: usize) -> (ok: bool)
        ensures
            ok == (self@.depth() <= limit),
        decreases self,
    {
        match self {
            Value::Sequence(items) => limit > 0 && items_nest_within(items, limit - 1),
            Value::Mapping(entries) => limit > 0 && entries_nest_within(entries, limit - 1),
            _ => true,
        }
    }

    /// Whether no mapping anywhere in the tree holds a key twice.
    pub fn is_well_formed(&self) -> (ok: bool)
        ensures
            ok == self@.well_formed(),
        decreases self,
    {
        match self {
            Value::Sequence(items) => items_well_formed(items),
            Value::Mapping(entries) => entries_well_formed(entries),
            _ => true,
        }
    }
}

/// Whether every item nests within the limit.
fn items_nest_within(items: &Vec<Value>, limit: usize) -> (ok: bool)
    ensures
        ok == (deepest_item(trees(items@), items@.len()) <= limit),
    decreases items,
{
    let ghost all = trees(items@);
    let mut i: usize = 0;
    while i < items.len()
        invariant
            i <= items.len(),
            all == trees(items@),
            forall|j: int| 0 <= j < i ==> (#[trigger] all[j]).depth() <= limit,
        decreases items.len() - i,
    {
        if !items[i].nests_within(limit) {
            proof {
                assert(!(all[i as int].depth() <= limit));
                lemma_deepest_item(all, all.len(), limit as nat);
            }
            return false;
        }
        i += 1;
    }
    proof {
        lemma_deepest_item(all, all.len(), limit as nat);
    }
    true
}

/// Whether the value of every member nests within the limit.
fn entries_nest_within(entries: &Vec<Entry>, limit: usize) -> (ok: bool)
    ensures
        ok == (deepest_member(members(entries@), entries@.len()) <= limit),
    decreases entries,
{
    let ghost all = members(entries@);
    let mut i: usize = 0;
    while i < entries.len()
        invariant
            i <= entries.len(),
            all == members(entries@),
            forall|j: int| 0 <= j < i ==> (#[trigger] all[j]).1.depth() <= limit,
        decreases entries.len() - i,
    {
        if !entries[i].value.nests_within(limit) {
            proof {
                assert(!(all[i as int].1.depth() <= limit));
                lemma_deepest_member(all, all.len(), limit as nat);
            }
            return false;
        }
        i += 1;
    }
    proof {
        lemma_deepest_member(all, all.len(), limit as nat);
    }
    true
}

/// Whether every item is well formed.
fn items_well_formed(items: &Vec<Value>) -> (ok: bool)
    ensures
        ok == each_well_formed(trees(items@)),
    decreases items,
{
    let ghost all = trees(items@);
    let mut i: usize = 0;
    while i < items.len()
        invariant
            i <= items.len(),
            all == trees(items@),
            forall|j: int| 0 <= j < i ==> (#[trigger] all[j]).well_formed(),
        decreases items.len() - i,
    {
        if !items[i].is_well_formed() {
            assert(!all[i as int].well_formed());
            return false;
        }
        i += 1;
    }
    true
}

/// Whether the keys are unique and the value of every member is well
/// formed.
fn entries_well_formed(entries: &Vec<Entry>) -> (ok: bool)
    ensures
        ok == Tree::Mapping(members(entries@)).well_formed(),
    decreases entries,
{
    let ghost all = members(entries@);
    let mut i: usize = 0;
    while i < entries.len()
        invariant
            i <= entries.len(),
            all == members(entries@),
            forall|j: int| 0 <= j < i ==> (#[trigger] all[j]).1.well_formed(),
            forall|j: int, k: int|
                0 <= j < i && 0 <= k < i && j != k ==> (#[trigger] all[j]).0 != (#[trigger] all[k]).0,
        decreases entries.len() - i,
    {
        if !entries[i].value.is_well_formed() {
            assert(!all[i as int].1.well_formed());
            return false;
        }
        let mut k: usize = 0;
        while k < i
            invariant
                k <= i < entries.len(),
                all == members(entries@),
                forall|j: int| 0 <= j < k ==> (#[trigger] all[j]).0 != all[i as int].0,
            decreases i - k,
        {
            if entries[k].key == entries[i].key {
                assert(all[k as int].0 == all[i as int].0);
                return false;
            }
            k += 1;
        }
        i += 1;
    }
    true
}

/// Whether two sequences are equal position by position.
fn same_items(l: &Vec<Value>, r: &Vec<Value>) -> (equal: bool)
    ensures
        equal == Tree::Sequence(trees(l@)).same(Tree::Sequence(trees(r@))),
    decreases l,
{
    if l.len() != r.len() {
        return false;
    }
    let mut i: usize = 0;
    while i < l.len()
        invariant
            i <= l.len(),
            l.len() == r.len(),
            forall|j: int| 0 <= j < i ==> (#[trigger] trees(l@)[j]).same(trees(r@)[j]),
        decreases l.len() - i,
    {
        if !l[i].same_as(&r[i]) {
            assert(!trees(l@)[i as int].same(trees(r@)[i as int]));
            return false;
        }
        i += 1;
    }
    true
}

/// Whether two mappings have the same keys with equal values.
fn same_members(l: &Vec<Entry>, r: &Vec<Entry>) -> (equal: bool)
    ensures
        equal == Tree::Mapping(members(l@)).same(Tree::Mapping(members(r@))),
    decreases l,
{
    let mut i: usize = 0;
    while i < l.len()
        invariant
            i <= l.len(),
            forall|j: int|
                0 <= j < i ==> match lookup(members(r@), (#[trigger] members(l@)[j]).0) {
                    Some(w) => members(l@)[j].1.same(w),
                    None => false,
                },
        decreases l.len() - i,
    {
        match find_entry(r, &l[i].key) {
            Some(k) => {
                if !l[i].value.same_as(&r[k].value) {
                    assert(lookup(members(r@), members(l@)[i as int].0) == Some(
                        members(r@)[k as int].1,
                    ));
                    return false;
                }
            },
            None => {
                return false;
            },
        }
        i += 1;
    }
    let mut j: usize = 0;
    while j < r.len()
        invariant
            j <= r.len(),
            forall|k: int|
                0 <= k < j ==> find(members(l@), (#[trigger] members(r@)[k]).0) is Some,
        decreases r.len() - j,
    {
        if find_entry(l, &r[j].key).is_none() {
            assert(find(members(l@), members(r@)[j as int].0) is None);
            return false;
        }
        j += 1;
    }
    true
}

} // verus!
