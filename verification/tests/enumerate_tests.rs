use treediff::{
    enumerate, enumerate_within, path_strings, path_strings_within, Entry, Number, Path, Segment,
    Value,
};

fn num(n: u64) -> Value {
    Value::Number(Number::PosInt(n))
}

fn map(entries: Vec<(&str, Value)>) -> Value {
    Value::Mapping(
        entries
            .into_iter()
            .map(|(k, v)| Entry { key: k.to_string(), value: v })
            .collect(),
    )
}

fn key(k: &str) -> Segment {
    Segment::Key(k.to_string())
}

fn count_nodes(v: &Value) -> usize {
    match v {
        Value::Sequence(items) => 1 + items.iter().map(count_nodes).sum::<usize>(),
        Value::Mapping(entries) => 1 + entries.iter().map(|e| count_nodes(&e.value)).sum::<usize>(),
        _ => 1,
    }
}

#[test]
fn lists_parents_before_children_in_document_order() {
    let doc = map(vec![
        ("a", map(vec![("b", num(1))])),
        ("c", Value::Sequence(vec![num(2), num(3)])),
    ]);
    assert_eq!(path_strings(&doc), vec!["a", "a.b", "c", "c[0]", "c[1]"]);
    let paths = enumerate(&doc);
    assert_eq!(
        paths,
        vec![
            Path { segments: vec![key("a")] },
            Path { segments: vec![key("a"), key("b")] },
            Path { segments: vec![key("c")] },
            Path { segments: vec![key("c"), Segment::Index(0)] },
            Path { segments: vec![key("c"), Segment::Index(1)] },
        ]
    );
}

#[test]
fn scalars_and_empty_containers_have_no_paths() {
    assert_eq!(enumerate(&Value::Null), vec![]);
    assert_eq!(enumerate(&Value::Bool(true)), vec![]);
    assert_eq!(enumerate(&num(7)), vec![]);
    assert_eq!(enumerate(&Value::String("s".to_string())), vec![]);
    assert_eq!(enumerate(&Value::Sequence(vec![])), vec![]);
    assert_eq!(enumerate(&map(vec![])), vec![]);
    let doc = map(vec![("empty", Value::Sequence(vec![])), ("none", map(vec![]))]);
    assert_eq!(path_strings(&doc), vec!["empty", "none"]);
}

#[test]
fn one_path_for_every_node_but_the_root() {
    let doc = map(vec![
        ("a", map(vec![("b", num(1)), ("c", Value::Sequence(vec![num(1), map(vec![("d", Value::Null)])]))])),
        ("e", Value::Sequence(vec![Value::Sequence(vec![num(1), num(2)]), num(3)])),
        ("f", Value::Null),
    ]);
    assert_eq!(count_nodes(&doc), 13);
    assert_eq!(enumerate(&doc).len(), 12);
    assert_eq!(path_strings(&doc).len(), count_nodes(&doc) - 1);
    assert_eq!(
        path_strings(&doc),
        vec![
            "a", "a.b", "a.c", "a.c[0]", "a.c[1]", "a.c[1].d", "e", "e[0]", "e[0][0]", "e[0][1]",
            "e[1]", "f",
        ]
    );
}

#[test]
fn nested_sequences_write_positions_without_separator() {
    let doc = Value::Sequence(vec![
        Value::Sequence(vec![num(1), num(2)]),
        map(vec![("k", Value::Sequence(vec![num(3)]))]),
    ]);
    assert_eq!(
        path_strings(&doc),
        vec!["[0]", "[0][0]", "[0][1]", "[1]", "[1].k", "[1].k[0]"]
    );
}

#[test]
fn positions_are_written_in_base_ten() {
    let item = |i: usize| Path { segments: vec![key("a"), Segment::Index(i)] }.render();
    assert_eq!(item(0), "a[0]");
    assert_eq!(item(9), "a[9]");
    assert_eq!(item(10), "a[10]");
    assert_eq!(item(123), "a[123]");
    assert_eq!(item(1000), "a[1000]");
    assert_eq!(item(4294967295), "a[4294967295]");
    assert_eq!(item(usize::MAX), format!("a[{}]", usize::MAX));
    let long: Vec<Value> = (0..12).map(num).collect();
    let lines = path_strings(&Value::Sequence(long));
    assert_eq!(lines[9], "[9]");
    assert_eq!(lines[10], "[10]");
    assert_eq!(lines[11], "[11]");
}

#[test]
fn root_path_is_empty() {
    let root = Path::root();
    assert_eq!(root.len(), 0);
    assert_eq!(root.render(), "");
    let child = root.child_key(&"a".to_string()).child_index(3).child_key(&"b".to_string());
    assert_eq!(child.len(), 3);
    assert_eq!(child.render(), "a[3].b");
    assert_eq!(child.clone(), child);
    assert_eq!(root.len(), 0);
}

#[test]
fn every_key_but_the_first_step_follows_a_separator() {
    let p = Path { segments: vec![key(""), key("b")] };
    assert_eq!(p.render(), ".b");
    let q = Path { segments: vec![key("a"), key(""), key("b")] };
    assert_eq!(q.render(), "a..b");
    let doc = map(vec![("", map(vec![("x", num(1))]))]);
    assert_eq!(path_strings(&doc), vec!["", ".x"]);
    let first = Path { segments: vec![key("b")] };
    assert_eq!(first.render(), "b");
    let after_position = Path { segments: vec![Segment::Index(0), key("b")] };
    assert_eq!(after_position.render(), "[0].b");
    let empty_keys = Path { segments: vec![key(""), key(""), key("")] };
    assert_eq!(empty_keys.render(), "..");
}

#[test]
fn enumeration_can_be_repeated() {
    let doc = map(vec![("a", Value::Sequence(vec![num(1)]))]);
    let first = enumerate(&doc);
    let second = enumerate(&doc);
    assert_eq!(first, second);
    assert_eq!(first.len(), 2);
}

#[test]
fn a_document_within_the_limit_is_listed() {
    let doc = map(vec![("a", map(vec![("b", num(1))])), ("c", Value::Sequence(vec![num(2)]))]);
    assert_eq!(enumerate_within(&doc, 2), Some(enumerate(&doc)));
    assert_eq!(
        path_strings_within(&doc, 2),
        Some(vec!["a".to_string(), "a.b".to_string(), "c".to_string(), "c[0]".to_string()])
    );
    assert_eq!(enumerate_within(&num(1), 0), Some(vec![]));
    assert_eq!(path_strings_within(&num(1), 0), Some(vec![]));
}

#[test]
fn a_document_beyond_the_limit_is_not_listed() {
    let doc = map(vec![("a", map(vec![("b", num(1))])), ("c", Value::Sequence(vec![num(2)]))]);
    assert_eq!(enumerate_within(&doc, 1), None);
    assert_eq!(path_strings_within(&doc, 1), None);
    assert_eq!(enumerate_within(&doc, 0), None);
    assert_eq!(enumerate_within(&map(vec![]), 0), None);
}
