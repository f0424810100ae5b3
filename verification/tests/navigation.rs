use valuepath::mapping::value_eq;
use valuepath::value::Value;

fn s(t: &str) -> Value {
    Value::String(t.to_string())
}

fn n(x: i64) -> Value {
    Value::Number(x)
}

fn map(entries: Vec<(Value, Value)>) -> Value {
    Value::Mapping(entries)
}

fn seq(items: Vec<Value>) -> Value {
    Value::Sequence(items)
}

#[test]
fn it_works() {
}

#[test]
fn get_path_agrees_with_manual_lookup() {
    let root = map(vec![(s("a"), map(vec![(s("b"), n(1))]))]);
    let manual = match &root {
        Value::Mapping(entries) => match &entries[0].1 {
            Value::Mapping(inner) => &inner[0].1,
            _ => panic!("expected inner mapping"),
        },
        _ => panic!("expected mapping"),
    };
    assert_eq!(root.get_path("a.b"), Some(manual));
    assert_eq!(root.path("a.b"), manual);
}

#[test]
fn read_optional_is_empty_at_first_bad_segment() {
    let root = map(vec![(s("a"), map(vec![(s("b"), n(1))]))]);
    assert_eq!(root.get_path("a.x"), None);
    assert_eq!(root.get_path("x.b"), None);
    assert_eq!(root.get_path("a.b.c"), None);
}

#[test]
fn out_of_range_index_is_empty() {
    let root = map(vec![(s("a"), seq(vec![n(1)]))]);
    assert_eq!(root.get_path("a.5"), None);
    assert_eq!(root.get_path("a.0"), Some(&n(1)));
}

#[test]
fn mixed_kind_path_resolves() {
    let root = map(vec![(
        s("a"),
        seq(vec![map(vec![(s("b"), n(1))]), map(vec![(s("b"), n(2))])]),
    )]);
    assert_eq!(root.get_path("a.0.b"), Some(&n(1)));
    assert_eq!(root.get_path("a.1.b"), Some(&n(2)));
    assert_eq!(root.path("a.0.b"), &n(1));
}

#[test]
fn numeric_key_wins_over_index() {
    let root = map(vec![(s("0"), s("x"))]);
    assert_eq!(root.get_path("0"), Some(&s("x")));
    assert_eq!(root.path("0"), &s("x"));
}

#[test]
fn insert_replaces_and_returns_previous() {
    let mut root = map(vec![(s("k"), n(1))]);
    let prev = root.insert(s("k"), n(2));
    assert_eq!(prev, Some(n(1)));
    assert_eq!(root.get_path("k"), Some(&n(2)));

    let fresh = root.insert(s("l"), n(3));
    assert_eq!(fresh, None);
    assert_eq!(root.get_path("l"), Some(&n(3)));
}

#[test]
fn insert_on_non_mapping_is_empty_and_harmless() {
    let mut node = n(7);
    assert_eq!(node.insert(s("k"), n(1)), None);
    assert_eq!(node, n(7));
}

#[test]
fn remove_returns_value_and_keeps_order() {
    let mut root = map(vec![(s("a"), n(1)), (s("b"), n(2)), (s("c"), n(3))]);
    assert_eq!(root.remove("b"), Some(n(2)));
    let keys: Vec<&Value> = root.keys();
    assert_eq!(keys, vec![&s("a"), &s("c")]);
    assert_eq!(root.remove("b"), None);

    let mut scalar = n(1);
    assert_eq!(scalar.remove("b"), None);
    assert_eq!(scalar, n(1));
}

#[test]
fn sequence_iteration_borrowed() {
    let root = seq(vec![n(1), n(2), n(3)]);
    let children: Vec<&Value> = root.iter();
    assert_eq!(children, vec![&n(1), &n(2), &n(3)]);
}

#[test]
fn sequence_iteration_owned() {
    let root = seq(vec![n(1), n(2), n(3)]);
    let children: Vec<Value> = root.into_iter();
    assert_eq!(children, vec![n(1), n(2), n(3)]);
}

#[test]
fn sequence_iteration_mutable() {
    let mut root = seq(vec![n(1), n(2), n(3)]);
    let count = root.child_count();
    for i in 0..count {
        let child = root.iter_mut(i);
        assert_eq!(*child, n(i as i64 + 1));
        *child = n((i as i64 + 1) * 10);
    }
    assert_eq!(root, seq(vec![n(10), n(20), n(30)]));
}

#[test]
fn mapping_iteration_yields_values_in_order() {
    let root = map(vec![(s("a"), n(1)), (s("b"), n(2))]);
    let children: Vec<&Value> = root.iter();
    assert_eq!(children, vec![&n(1), &n(2)]);
}

#[test]
fn keys_come_in_insertion_order() {
    let root = map(vec![(s("z"), n(1)), (s("a"), n(2)), (s("m"), n(3))]);
    let keys: Vec<&Value> = root.keys();
    assert_eq!(keys, vec![&s("z"), &s("a"), &s("m")]);
}

#[test]
fn write_traversal_is_visible_to_later_reads() {
    let mut root = map(vec![(s("a"), map(vec![(s("b"), n(1))]))]);
    {
        let node = root.path_mut("a.b");
        *node = n(5);
    }
    assert_eq!(root.get_path("a.b"), Some(&n(5)));

    let node = root.get_path_mut("a.b").expect("path exists");
    *node = s("done");
    assert_eq!(root.path("a.b"), &s("done"));
}

#[test]
fn failed_write_traversal_changes_nothing() {
    let mut root = map(vec![(s("a"), n(1))]);
    assert_eq!(root.get_path_mut("a.b"), None);
    assert_eq!(root, map(vec![(s("a"), n(1))]));
}

#[test]
fn empty_path_is_one_empty_segment() {
    let root = map(vec![(s(""), n(7))]);
    assert_eq!(root.get_path(""), Some(&n(7)));

    let other = map(vec![(s("a"), n(1))]);
    assert_eq!(other.get_path(""), None);
}

#[test]
fn trailing_separator_makes_empty_segment() {
    let root = map(vec![(s("a"), map(vec![(s(""), n(9))]))]);
    assert_eq!(root.get_path("a."), Some(&n(9)));
    assert_eq!(root.get_path("a"), Some(&map(vec![(s(""), n(9))])));
}

#[test]
fn index_accepts_one_leading_plus_sign() {
    let root = seq(vec![n(10), n(20)]);
    assert_eq!(root.get_path("+1"), Some(&n(20)));
    assert_eq!(root.get_path("++1"), None);
    assert_eq!(root.get_path("1x"), None);
    assert_eq!(root.get_path("-1"), None);
}

#[test]
fn huge_index_fails_to_parse() {
    let root = seq(vec![n(1)]);
    assert_eq!(root.get_path("99999999999999999999999999"), None);
}

#[test]
fn deep_equality_compares_models() {
    let a = map(vec![(s("k"), seq(vec![n(1), Value::Bool(true), Value::Null]))]);
    let b = map(vec![(s("k"), seq(vec![n(1), Value::Bool(true), Value::Null]))]);
    let c = map(vec![(s("k"), seq(vec![n(1), Value::Bool(false), Value::Null]))]);
    assert!(value_eq(&a, &b));
    assert!(!value_eq(&a, &c));
    assert!(!value_eq(&a, &n(1)));
}

#[test]
fn insert_with_non_string_key() {
    let mut root = map(vec![]);
    assert_eq!(root.insert(n(1), s("one")), None);
    assert_eq!(root.insert(n(1), s("uno")), Some(s("one")));
    let keys: Vec<&Value> = root.keys();
    assert_eq!(keys, vec![&n(1)]);
}
