use treediff::value::find_entry;
use treediff::{Entry, Number, Value};

fn num(n: u64) -> Value {
    Value::Number(Number::PosInt(n))
}

fn entry(k: &str, v: Value) -> Entry {
    Entry { key: k.to_string(), value: v }
}

fn map(entries: Vec<(&str, Value)>) -> Value {
    Value::Mapping(entries.into_iter().map(|(k, v)| entry(k, v)).collect())
}

#[test]
fn equality_matches_members_by_key() {
    let a = map(vec![("x", num(1)), ("y", Value::Sequence(vec![num(1), num(2)]))]);
    let b = map(vec![("y", Value::Sequence(vec![num(1), num(2)])), ("x", num(1))]);
    assert!(a.same_as(&b));
    assert!(b.same_as(&a));
    assert!(a == b);
    let c = map(vec![("y", Value::Sequence(vec![num(2), num(1)])), ("x", num(1))]);
    assert!(!a.same_as(&c));
    assert!(a != c);
}

#[test]
fn equality_needs_the_same_keys_on_both_sides() {
    let small = map(vec![("x", num(1))]);
    let large = map(vec![("x", num(1)), ("y", num(2))]);
    assert!(!small.same_as(&large));
    assert!(!large.same_as(&small));
    assert!(map(vec![]).same_as(&map(vec![])));
    assert!(!map(vec![]).same_as(&Value::Sequence(vec![])));
}

#[test]
fn equality_of_scalars_is_exact() {
    assert!(Value::Null.same_as(&Value::Null));
    assert!(Value::Bool(true).same_as(&Value::Bool(true)));
    assert!(!Value::Bool(true).same_as(&Value::Bool(false)));
    assert!(num(3).same_as(&num(3)));
    assert!(!num(3).same_as(&num(4)));
    assert!(!num(3).same_as(&Value::Number(Number::Float(3.0f64.to_bits()))));
    assert!(!num(1).same_as(&Value::Number(Number::NegInt(-1))));
    assert!(Value::String("a".to_string()).same_as(&Value::String("a".to_string())));
    assert!(!Value::String("a".to_string()).same_as(&Value::String("A".to_string())));
    assert!(!Value::String("1".to_string()).same_as(&num(1)));
    assert!(!Value::Null.same_as(&Value::Bool(false)));
}

#[test]
fn sequences_are_equal_position_by_position() {
    let a = Value::Sequence(vec![num(1), num(2)]);
    assert!(a.same_as(&Value::Sequence(vec![num(1), num(2)])));
    assert!(!a.same_as(&Value::Sequence(vec![num(2), num(1)])));
    assert!(!a.same_as(&Value::Sequence(vec![num(1)])));
    assert!(!a.same_as(&Value::Sequence(vec![num(1), num(2), num(3)])));
}

#[test]
fn a_repeated_key_is_not_well_formed() {
    assert!(map(vec![("a", num(1)), ("b", num(2))]).is_well_formed());
    assert!(!map(vec![("a", num(1)), ("a", num(2))]).is_well_formed());
    assert!(!map(vec![("a", num(1)), ("b", num(2)), ("a", num(1))]).is_well_formed());
    let nested = Value::Sequence(vec![num(1), map(vec![("k", map(vec![("a", num(1)), ("a", num(1))]))])]);
    assert!(!nested.is_well_formed());
    let fine = Value::Sequence(vec![map(vec![("a", num(1))]), map(vec![("a", num(2))])]);
    assert!(fine.is_well_formed());
    assert!(Value::Null.is_well_formed());
    assert!(Value::Sequence(vec![]).is_well_formed());
}

#[test]
fn find_entry_returns_the_first_position_with_the_key() {
    let entries = vec![entry("a", num(1)), entry("b", num(2)), entry("a", num(3))];
    assert_eq!(find_entry(&entries, &"a".to_string()), Some(0));
    assert_eq!(find_entry(&entries, &"b".to_string()), Some(1));
    assert_eq!(find_entry(&entries, &"c".to_string()), None);
    assert_eq!(find_entry(&Vec::new(), &"a".to_string()), None);
}

#[test]
fn clone_is_an_equal_independent_tree() {
    let doc = map(vec![
        ("a", Value::Sequence(vec![num(1), Value::Null, Value::Bool(false)])),
        ("b", Value::String("text".to_string())),
        ("c", Value::Number(Number::NegInt(-5))),
    ]);
    let copy = doc.clone();
    assert_eq!(copy, doc);
    drop(doc);
    match copy {
        Value::Mapping(entries) => {
            assert_eq!(entries.len(), 3);
            assert_eq!(entries[0].key, "a");
            assert_eq!(entries[2].value, Value::Number(Number::NegInt(-5)));
        }
        _ => panic!("a mapping was cloned"),
    }
}

#[test]
fn nesting_is_counted_in_containers() {
    assert!(Value::Null.nests_within(0));
    assert!(num(1).nests_within(0));
    let empty = Value::Sequence(vec![]);
    assert!(!empty.nests_within(0));
    assert!(empty.nests_within(1));
    assert!(!map(vec![]).nests_within(0));
    assert!(map(vec![]).nests_within(1));
    let doc = map(vec![
        ("a", num(1)),
        ("b", Value::Sequence(vec![num(1), map(vec![("c", Value::Sequence(vec![num(2)]))])])),
        ("d", map(vec![("e", num(3))])),
    ]);
    assert!(!doc.nests_within(0));
    assert!(!doc.nests_within(3));
    assert!(doc.nests_within(4));
    assert!(doc.nests_within(5));
    assert!(doc.nests_within(usize::MAX));
}

#[test]
fn a_deep_tree_is_refused_without_descending_into_it() {
    let mut deep = num(0);
    for _ in 0..50 {
        deep = Value::Sequence(vec![deep]);
    }
    assert!(deep.nests_within(50));
    assert!(!deep.nests_within(49));
    assert!(!deep.nests_within(1));
}
