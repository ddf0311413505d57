use treediff::{diff, diff_within, DiffKind, DiffOp, Entry, Number, Path, Segment, Value};

fn num(n: u64) -> Value {
    Value::Number(Number::PosInt(n))
}

fn text(s: &str) -> Value {
    Value::String(s.to_string())
}

fn list(items: Vec<Value>) -> Value {
    Value::Sequence(items)
}

fn map(entries: Vec<(&str, Value)>) -> Value {
    Value::Mapping(
        entries
            .into_iter()
            .map(|(k, v)| Entry { key: k.to_string(), value: v })
            .collect(),
    )
}

fn key(k: &str) -> Segment {
    Segment::Key(k.to_string())
}

fn path(segments: Vec<Segment>) -> Path {
    Path { segments }
}

fn mirror(op: &DiffOp) -> DiffOp {
    DiffOp {
        path: op.path.clone(),
        kind: match op.kind {
            DiffKind::Added => DiffKind::Removed,
            DiffKind::Removed => DiffKind::Added,
            DiffKind::Changed => DiffKind::Changed,
        },
        old: op.new.clone(),
        new: op.old.clone(),
    }
}

fn headlines(ops: &[DiffOp]) -> Vec<String> {
    ops.iter().map(|op| op.headline()).collect()
}

#[test]
fn changed_leaf_below_a_nested_mapping() {
    let left = map(vec![("a", num(1)), ("b", map(vec![("c", num(2))]))]);
    let right = map(vec![("a", num(1)), ("b", map(vec![("c", num(3))]))]);
    let ops = diff(&left, &right);
    assert_eq!(ops, vec![DiffOp::changed(path(vec![key("b"), key("c")]), num(2), num(3))]);
    assert_eq!(ops[0].kind, DiffKind::Changed);
    assert_eq!(ops[0].path.render(), "b.c");
    assert_eq!(ops[0].old, Some(num(2)));
    assert_eq!(ops[0].new, Some(num(3)));
}

#[test]
fn item_appended_to_a_sequence() {
    let left = map(vec![("a", list(vec![num(1), num(2)]))]);
    let right = map(vec![("a", list(vec![num(1), num(2), num(3)]))]);
    let ops = diff(&left, &right);
    assert_eq!(ops, vec![DiffOp::added(path(vec![key("a"), Segment::Index(2)]), num(3))]);
    assert_eq!(ops[0].path.render(), "a[2]");
    assert_eq!(ops[0].old, None);
    assert_eq!(ops[0].new, Some(num(3)));
}

#[test]
fn left_only_keys_come_before_right_only_keys() {
    let left = map(vec![("x", num(1))]);
    let right = map(vec![("y", num(1))]);
    let ops = diff(&left, &right);
    assert_eq!(
        ops,
        vec![
            DiffOp::removed(path(vec![key("x")]), num(1)),
            DiffOp::added(path(vec![key("y")]), num(1)),
        ]
    );
    assert_eq!(ops[0].new, None);
    assert_eq!(ops[1].old, None);
}

#[test]
fn mapping_against_sequence_is_one_change() {
    let left = map(vec![("a", map(vec![("b", num(1))]))]);
    let right = map(vec![("a", list(vec![num(1)]))]);
    let ops = diff(&left, &right);
    assert_eq!(
        ops,
        vec![DiffOp::changed(
            path(vec![key("a")]),
            map(vec![("b", num(1))]),
            list(vec![num(1)]),
        )]
    );
}

#[test]
fn container_against_scalar_is_one_change_at_the_root() {
    let left = map(vec![("a", num(1)), ("b", num(2))]);
    let right = text("a");
    let ops = diff(&left, &right);
    assert_eq!(ops, vec![DiffOp::changed(path(vec![]), left.clone(), right.clone())]);
    assert_eq!(ops[0].path.render(), "");
    let back = diff(&right, &left);
    assert_eq!(back, vec![DiffOp::changed(path(vec![]), right, left)]);
}

#[test]
fn a_document_does_not_differ_from_itself() {
    let doc = map(vec![
        ("a", map(vec![("b", num(1)), ("c", Value::Null)])),
        ("d", list(vec![num(2), text("x"), list(vec![]), map(vec![])])),
        ("e", Value::Bool(true)),
    ]);
    assert_eq!(diff(&doc, &doc), vec![]);
    assert_eq!(diff(&doc, &doc.clone()), vec![]);
    assert_eq!(diff(&Value::Null, &Value::Null), vec![]);
}

#[test]
fn key_order_makes_no_difference() {
    let left = map(vec![("a", num(1)), ("b", map(vec![("c", num(2)), ("d", num(3))]))]);
    let right = map(vec![("b", map(vec![("d", num(3)), ("c", num(2))])), ("a", num(1))]);
    assert_eq!(diff(&left, &right), vec![]);
    assert_eq!(diff(&right, &left), vec![]);
}

#[test]
fn the_other_direction_gives_the_mirrored_differences() {
    let left = map(vec![
        ("a", num(1)),
        ("b", list(vec![num(1), num(2), num(3)])),
        ("c", map(vec![("x", text("p")), ("y", text("q"))])),
        ("only_left", Value::Null),
    ]);
    let right = map(vec![
        ("c", map(vec![("y", text("r")), ("z", text("s"))])),
        ("only_right", Value::Bool(false)),
        ("b", list(vec![num(1), num(5)])),
        ("a", text("1")),
    ]);
    let there = diff(&left, &right);
    let back = diff(&right, &left);
    assert_eq!(there.len(), 8);
    assert_eq!(back.len(), there.len());
    for op in &there {
        let m = mirror(op);
        let in_there = there.iter().filter(|o| **o == *op).count();
        let in_back = back.iter().filter(|o| **o == m).count();
        assert_eq!(in_there, 1);
        assert_eq!(in_back, 1);
    }
}

#[test]
fn differences_come_in_document_order() {
    let left = map(vec![
        ("a", num(1)),
        ("b", list(vec![num(1), num(2), num(3)])),
        ("c", map(vec![("x", text("p")), ("y", text("q"))])),
        ("only_left", Value::Null),
    ]);
    let right = map(vec![
        ("c", map(vec![("y", text("r")), ("z", text("s"))])),
        ("only_right", Value::Bool(false)),
        ("b", list(vec![num(1), num(5)])),
        ("a", text("1")),
    ]);
    assert_eq!(
        headlines(&diff(&left, &right)),
        vec![
            "CHANGED: a",
            "CHANGED: b[1]",
            "REMOVED: b[2]",
            "REMOVED: c.x",
            "CHANGED: c.y",
            "ADDED: c.z",
            "REMOVED: only_left",
            "ADDED: only_right",
        ]
    );
    assert_eq!(
        headlines(&diff(&right, &left)),
        vec![
            "CHANGED: c.y",
            "REMOVED: c.z",
            "ADDED: c.x",
            "REMOVED: only_right",
            "CHANGED: b[1]",
            "ADDED: b[2]",
            "CHANGED: a",
            "ADDED: only_left",
        ]
    );
}

#[test]
fn shorter_right_sequence_gives_removals() {
    let left = list(vec![num(1), num(2), num(3)]);
    let right = list(vec![num(1)]);
    assert_eq!(
        diff(&left, &right),
        vec![
            DiffOp::removed(path(vec![Segment::Index(1)]), num(2)),
            DiffOp::removed(path(vec![Segment::Index(2)]), num(3)),
        ]
    );
    assert_eq!(
        diff(&list(vec![]), &left),
        vec![
            DiffOp::added(path(vec![Segment::Index(0)]), num(1)),
            DiffOp::added(path(vec![Segment::Index(1)]), num(2)),
            DiffOp::added(path(vec![Segment::Index(2)]), num(3)),
        ]
    );
}

#[test]
fn an_added_subtree_is_one_addition() {
    let left = map(vec![]);
    let right = map(vec![("a", map(vec![("b", list(vec![num(1), num(2)]))]))]);
    assert_eq!(
        diff(&left, &right),
        vec![DiffOp::added(path(vec![key("a")]), map(vec![("b", list(vec![num(1), num(2)]))]))]
    );
}

#[test]
fn scalars_of_different_kinds_are_changed() {
    let cases = vec![
        (Value::Null, Value::Bool(false)),
        (Value::Bool(true), Value::Bool(false)),
        (num(1), text("1")),
        (text("a"), text("b")),
        (num(0), Value::Null),
    ];
    for (l, r) in cases {
        assert_eq!(diff(&l, &r), vec![DiffOp::changed(path(vec![]), l.clone(), r.clone())]);
    }
}

#[test]
fn numbers_are_compared_without_coercion() {
    let one = Value::Number(Number::PosInt(1));
    let one_float = Value::Number(Number::Float(1.0f64.to_bits()));
    let minus_one = Value::Number(Number::NegInt(-1));
    assert_eq!(diff(&one, &one), vec![]);
    assert_eq!(diff(&one_float, &one_float), vec![]);
    assert_eq!(
        diff(&one, &one_float),
        vec![DiffOp::changed(path(vec![]), one.clone(), one_float.clone())]
    );
    assert_eq!(
        diff(&one, &minus_one),
        vec![DiffOp::changed(path(vec![]), one.clone(), minus_one.clone())]
    );
    let half = Value::Number(Number::Float(0.5f64.to_bits()));
    assert_eq!(diff(&half, &one_float).len(), 1);
}

#[test]
fn headline_names_kind_and_path() {
    let p = path(vec![key("a"), key("b"), Segment::Index(2), key("c")]);
    assert_eq!(DiffOp::added(p.clone(), num(1)).headline(), "ADDED: a.b[2].c");
    assert_eq!(DiffOp::removed(p.clone(), num(1)).headline(), "REMOVED: a.b[2].c");
    assert_eq!(DiffOp::changed(p, num(1), num(2)).headline(), "CHANGED: a.b[2].c");
    assert_eq!(DiffKind::Added.label(), "ADDED");
    assert_eq!(DiffKind::Removed.label(), "REMOVED");
    assert_eq!(DiffKind::Changed.label(), "CHANGED");
}

#[test]
fn records_own_copies_of_the_values() {
    let left = map(vec![("a", list(vec![num(1)]))]);
    let right = map(vec![]);
    let ops = diff(&left, &right);
    drop(right);
    let copy = ops[0].clone();
    drop(ops);
    assert_eq!(copy, DiffOp::removed(path(vec![key("a")]), list(vec![num(1)])));
    assert_eq!(left, map(vec![("a", list(vec![num(1)]))]));
}

#[test]
fn documents_within_the_limit_are_compared() {
    let left = map(vec![("a", list(vec![num(1), num(2)]))]);
    let right = map(vec![("a", list(vec![num(1), num(3)]))]);
    assert_eq!(diff_within(&left, &right, 2), Some(diff(&left, &right)));
    assert_eq!(
        diff_within(&left, &right, 2),
        Some(vec![DiffOp::changed(path(vec![key("a"), Segment::Index(1)]), num(2), num(3))])
    );
    assert_eq!(diff_within(&left, &right, 100), Some(diff(&left, &right)));
    assert_eq!(diff_within(&num(1), &num(1), 0), Some(vec![]));
}

#[test]
fn a_document_beyond_the_limit_is_not_compared() {
    let shallow = map(vec![("a", num(1))]);
    let deep = map(vec![("a", list(vec![num(1), num(2)]))]);
    assert_eq!(diff_within(&deep, &shallow, 1), None);
    assert_eq!(diff_within(&shallow, &deep, 1), None);
    assert_eq!(diff_within(&deep, &deep, 1), None);
    assert_eq!(diff_within(&shallow, &shallow, 0), None);
    assert!(diff_within(&shallow, &deep, 2).is_some());
}
