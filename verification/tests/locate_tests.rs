use treediff::{diff, enumerate, DiffKind, DiffOp, Entry, Number, Path, Segment, Value};

fn num(n: u64) -> Value {
    Value::Number(Number::PosInt(n))
}

fn map(entries: Vec<(&str, Value)>) -> Value {
    Value::Mapping(
        entries
            .into_iter()
            .map(|(k, v)| Entry { key: k.to_string(), value: v })
            .collect(),
    )
}

fn key(k: &str) -> Segment {
    Segment::Key(k.to_string())
}

fn path(segments: Vec<Segment>) -> Path {
    Path { segments }
}

fn starts_with(path: &Path, prefix: &Path) -> bool {
    path.segments.len() >= prefix.segments.len()
        && path.segments[..prefix.segments.len()] == prefix.segments[..]
}

fn sample_left() -> Value {
    map(vec![
        ("a", map(vec![("b", num(1)), ("c", map(vec![("d", num(2)), ("e", num(3))]))])),
        ("f", Value::Sequence(vec![num(1), map(vec![("g", num(4))]), num(3)])),
        ("h", Value::Null),
    ])
}

fn sample_right() -> Value {
    map(vec![
        ("f", Value::Sequence(vec![num(1), Value::Sequence(vec![num(4)])])),
        ("a", map(vec![("c", Value::Sequence(vec![num(2), num(3)])), ("b", num(1))])),
        ("i", Value::Bool(true)),
    ])
}

#[test]
fn a_step_leads_to_the_child() {
    let doc = sample_left();
    assert_eq!(doc.child(&key("h")), Some(&Value::Null));
    assert_eq!(doc.child(&key("missing")), None);
    assert_eq!(doc.child(&Segment::Index(0)), None);
    let f = doc.child(&key("f")).unwrap();
    assert_eq!(f.child(&Segment::Index(0)), Some(&num(1)));
    assert_eq!(f.child(&Segment::Index(2)), Some(&num(3)));
    assert_eq!(f.child(&Segment::Index(3)), None);
    assert_eq!(f.child(&key("0")), None);
    assert_eq!(num(1).child(&key("a")), None);
    assert_eq!(num(1).child(&Segment::Index(0)), None);
}

#[test]
fn a_path_leads_to_the_node_it_addresses() {
    let doc = sample_left();
    assert_eq!(doc.at(&Path::root()), Some(&doc));
    assert_eq!(doc.at(&path(vec![key("a"), key("c"), key("e")])), Some(&num(3)));
    assert_eq!(doc.at(&path(vec![key("f"), Segment::Index(1), key("g")])), Some(&num(4)));
    assert_eq!(doc.at(&path(vec![key("f"), Segment::Index(1), key("x")])), None);
    assert_eq!(doc.at(&path(vec![key("f"), Segment::Index(5)])), None);
    assert_eq!(doc.at(&path(vec![key("h"), key("x")])), None);
    assert_eq!(doc.at(&path(vec![key("a"), Segment::Index(0)])), None);
}

#[test]
fn a_repeated_key_addresses_its_first_member() {
    let doc = map(vec![("a", num(1)), ("a", num(2))]);
    assert_eq!(doc.at(&path(vec![key("a")])), Some(&num(1)));
}

#[test]
fn every_listed_path_addresses_a_node() {
    let doc = sample_left();
    let paths = enumerate(&doc);
    assert_eq!(paths.len(), 11);
    for p in &paths {
        assert!(doc.at(p).is_some());
    }
    for i in 0..paths.len() {
        for j in 0..paths.len() {
            assert_eq!(paths[i] == paths[j], i == j);
        }
    }
}

#[test]
fn a_mismatch_below_the_root_is_one_change_with_nothing_below_it() {
    let left = sample_left();
    let right = sample_right();
    let ops = diff(&left, &right);
    let mapping_against_sequence = path(vec![key("a"), key("c")]);
    let below: Vec<_> =
        ops.iter().filter(|op| starts_with(&op.path, &mapping_against_sequence)).collect();
    assert_eq!(below.len(), 1);
    assert_eq!(below[0].kind, DiffKind::Changed);
    assert_eq!(below[0].path, mapping_against_sequence);
    assert_eq!(below[0].old, Some(map(vec![("d", num(2)), ("e", num(3))])));
    assert_eq!(below[0].new, Some(Value::Sequence(vec![num(2), num(3)])));

    let inside_a_sequence = path(vec![key("f"), Segment::Index(1)]);
    let below: Vec<_> =
        ops.iter().filter(|op| starts_with(&op.path, &inside_a_sequence)).collect();
    assert_eq!(below.len(), 1);
    assert_eq!(below[0].kind, DiffKind::Changed);
    assert_eq!(below[0].path, inside_a_sequence);
    assert_eq!(below[0].old, Some(map(vec![("g", num(4))])));
    assert_eq!(below[0].new, Some(Value::Sequence(vec![num(4)])));

    let lines: Vec<String> = ops.iter().map(|op| op.headline()).collect();
    assert_eq!(
        lines,
        vec!["CHANGED: a.c", "CHANGED: f[1]", "REMOVED: f[2]", "REMOVED: h", "ADDED: i"]
    );
}

#[test]
fn every_difference_is_true_of_the_documents() {
    let left = sample_left();
    let right = sample_right();
    let ops = diff(&left, &right);
    assert_eq!(ops.len(), 5);
    for op in &ops {
        match op.kind {
            DiffKind::Added => {
                assert_eq!(left.at(&op.path), None);
                assert_eq!(right.at(&op.path), op.new.as_ref());
                assert_eq!(op.old, None);
                assert!(op.new.is_some());
            }
            DiffKind::Removed => {
                assert_eq!(left.at(&op.path), op.old.as_ref());
                assert_eq!(right.at(&op.path), None);
                assert_eq!(op.new, None);
                assert!(op.old.is_some());
            }
            DiffKind::Changed => {
                assert_eq!(left.at(&op.path), op.old.as_ref());
                assert_eq!(right.at(&op.path), op.new.as_ref());
                assert!(op.old.is_some() && op.new.is_some());
                assert!(op.old != op.new);
            }
        }
    }
}

fn two_of_a_kind(a: Option<&Value>, b: Option<&Value>) -> bool {
    matches!(
        (a, b),
        (Some(Value::Mapping(_)), Some(Value::Mapping(_)))
            | (Some(Value::Sequence(_)), Some(Value::Sequence(_)))
    )
}

fn called_for(at: &Path, l: Option<&Value>, r: Option<&Value>) -> Option<DiffOp> {
    match (l, r) {
        (Some(a), Some(b)) => {
            if a == b || two_of_a_kind(l, r) {
                None
            } else {
                Some(DiffOp::changed(at.clone(), a.clone(), b.clone()))
            }
        }
        (Some(a), None) => Some(DiffOp::removed(at.clone(), a.clone())),
        (None, Some(b)) => Some(DiffOp::added(at.clone(), b.clone())),
        (None, None) => None,
    }
}

#[test]
fn every_point_of_difference_is_reported() {
    let left = sample_left();
    let right = sample_right();
    let ops = diff(&left, &right);
    let mut places = vec![Path::root()];
    places.extend(enumerate(&left));
    for place in enumerate(&right) {
        if !places.contains(&place) {
            places.push(place);
        }
    }
    let mut called = 0;
    for place in &places {
        let reached = (0..place.len()).all(|n| {
            let prefix = Path { segments: place.segments[..n].to_vec() };
            two_of_a_kind(left.at(&prefix), right.at(&prefix))
        });
        if !reached {
            continue;
        }
        if let Some(op) = called_for(place, left.at(place), right.at(place)) {
            assert_eq!(ops.iter().filter(|o| **o == op).count(), 1);
            called += 1;
        }
    }
    assert_eq!(called, 5);
    assert_eq!(ops.len(), 5);
}

#[test]
fn no_path_is_reported_twice() {
    let left = sample_left();
    let right = sample_right();
    for ops in [diff(&left, &right), diff(&right, &left)] {
        assert_eq!(ops.len(), 5);
        for i in 0..ops.len() {
            for j in 0..ops.len() {
                assert_eq!(ops[i].path == ops[j].path, i == j);
            }
        }
    }
}
