use config_diff::{compare_dicts, compare_yaml_strings, CompareError, NestedHashMap, NestedValue};

fn text(v: &str) -> NestedValue {
    NestedValue::Value(v.to_string())
}

fn list(items: &[&str]) -> NestedValue {
    NestedValue::List(items.iter().map(|s| text(s)).collect())
}

fn sorted(v: &[String]) -> Vec<String> {
    let mut out = v.to_vec();
    out.sort();
    out
}

fn sample() -> NestedHashMap {
    let mut inner = NestedHashMap::new();
    inner.insert("x".to_string(), text("1"));
    inner.insert("empty".to_string(), NestedValue::Mapping(NestedHashMap::new()));
    let mut root = NestedHashMap::new();
    root.insert("name".to_string(), text("svc"));
    root.insert("tags".to_string(), list(&["a", "b"]));
    root.insert("inner".to_string(), NestedValue::Mapping(inner));
    root
}

#[test]
fn comparing_a_map_with_itself_lists_every_leaf_as_same() {
    let a = sample();
    let b = a.clone();
    let (left, right, same, changed) = compare_dicts(&a, &b);
    assert!(left.is_empty());
    assert!(right.is_empty());
    assert!(changed.is_empty());
    assert_eq!(same, vec!["/name", "/tags", "/inner/x", "/inner/empty"]);
}

#[test]
fn reordered_list_is_changed() {
    let mut a = NestedHashMap::new();
    a.insert("versions".to_string(), list(&["1.0.0", "1.0.1"]));
    let mut b = NestedHashMap::new();
    b.insert("versions".to_string(), list(&["1.0.1", "1.0.0"]));
    let (left, right, same, changed) = compare_dicts(&a, &b);
    assert!(left.is_empty() && right.is_empty() && same.is_empty());
    assert_eq!(changed, vec!["/versions"]);
}

#[test]
fn empty_maps_on_both_sides_are_same() {
    let mut a = NestedHashMap::new();
    a.insert("k".to_string(), NestedValue::Mapping(NestedHashMap::new()));
    let mut b = NestedHashMap::new();
    b.insert("k".to_string(), NestedValue::Mapping(NestedHashMap::new()));
    let (left, right, same, changed) = compare_dicts(&a, &b);
    assert!(left.is_empty() && right.is_empty() && changed.is_empty());
    assert_eq!(same, vec!["/k"]);
}

#[test]
fn empty_map_against_non_empty_map_is_entered() {
    let mut a = NestedHashMap::new();
    a.insert("k".to_string(), NestedValue::Mapping(NestedHashMap::new()));
    let mut sub = NestedHashMap::new();
    sub.insert("z".to_string(), text("1"));
    let mut b = NestedHashMap::new();
    b.insert("k".to_string(), NestedValue::Mapping(sub));
    let (left, right, same, changed) = compare_dicts(&a, &b);
    assert!(left.is_empty() && same.is_empty() && changed.is_empty());
    assert_eq!(right, vec!["/k/z"]);
}

#[test]
fn repeated_runs_and_insertion_order_give_the_same_sets() {
    let mut a1 = NestedHashMap::new();
    a1.insert("p".to_string(), text("1"));
    a1.insert("q".to_string(), text("2"));
    a1.insert("r".to_string(), text("3"));
    let mut a2 = NestedHashMap::new();
    a2.insert("r".to_string(), text("3"));
    a2.insert("q".to_string(), text("2"));
    a2.insert("p".to_string(), text("1"));
    let mut b = NestedHashMap::new();
    b.insert("q".to_string(), text("9"));
    b.insert("p".to_string(), text("1"));
    b.insert("s".to_string(), text("4"));
    let first = compare_dicts(&a1, &b);
    let again = compare_dicts(&a1, &b);
    assert_eq!(first, again);
    let other = compare_dicts(&a2, &b);
    assert_eq!(sorted(&first.0), sorted(&other.0));
    assert_eq!(sorted(&first.1), sorted(&other.1));
    assert_eq!(sorted(&first.2), sorted(&other.2));
    assert_eq!(sorted(&first.3), sorted(&other.3));
    assert_eq!(first.0, vec!["/r"]);
    assert_eq!(first.1, vec!["/s"]);
    assert_eq!(first.2, vec!["/p"]);
    assert_eq!(first.3, vec!["/q"]);
}

#[test]
fn values_of_different_kinds_are_changed() {
    let mut sub = NestedHashMap::new();
    sub.insert("z".to_string(), text("1"));
    let mut a = NestedHashMap::new();
    a.insert("m".to_string(), text("1"));
    a.insert("l".to_string(), list(&["1"]));
    a.insert("e".to_string(), NestedValue::Mapping(NestedHashMap::new()));
    let mut b = NestedHashMap::new();
    b.insert("m".to_string(), NestedValue::Mapping(sub));
    b.insert("l".to_string(), text("1"));
    b.insert("e".to_string(), list(&[]));
    let (left, right, same, changed) = compare_dicts(&a, &b);
    assert!(left.is_empty() && right.is_empty() && same.is_empty());
    assert_eq!(changed, vec!["/m", "/l", "/e"]);
}

#[test]
fn lists_of_maps_ignore_entry_order() {
    let mut m1 = NestedHashMap::new();
    m1.insert("a".to_string(), text("1"));
    m1.insert("b".to_string(), text("2"));
    let mut m2 = NestedHashMap::new();
    m2.insert("b".to_string(), text("2"));
    m2.insert("a".to_string(), text("1"));
    let mut a = NestedHashMap::new();
    a.insert("items".to_string(), NestedValue::List(vec![NestedValue::Mapping(m1)]));
    let mut b = NestedHashMap::new();
    b.insert("items".to_string(), NestedValue::List(vec![NestedValue::Mapping(m2)]));
    let (_, _, same, changed) = compare_dicts(&a, &b);
    assert_eq!(same, vec!["/items"]);
    assert!(changed.is_empty());
}

#[test]
fn keys_with_a_slash_are_not_escaped() {
    let mut a = NestedHashMap::new();
    a.insert("a/b".to_string(), text("1"));
    let b = NestedHashMap::new();
    let (left, _, _, _) = compare_dicts(&a, &b);
    assert_eq!(left, vec!["/a/b"]);
}

#[test]
fn empty_maps_give_empty_results() {
    let a = NestedHashMap::new();
    let b = NestedHashMap::new();
    let (left, right, same, changed) = compare_dicts(&a, &b);
    assert!(left.is_empty() && right.is_empty() && same.is_empty() && changed.is_empty());
}

#[test]
fn insert_replaces_in_place() {
    let mut m = NestedHashMap::new();
    m.insert("a".to_string(), text("1"));
    m.insert("b".to_string(), text("2"));
    m.insert("a".to_string(), text("3"));
    assert_eq!(m.len(), 2);
    assert!(m.contains_key(&"a".to_string()));
    assert!(!m.contains_key(&"c".to_string()));
    match m.get(&"a".to_string()) {
        Some(NestedValue::Value(s)) => assert_eq!(s, "3"),
        other => panic!("unexpected {:?}", other),
    }
    let (k, _) = m.entry(0);
    assert_eq!(k, "a");
}

#[test]
fn compare_yaml_strings_reports_the_paths() {
    let a = "a: 1\nb:\n  c: x\n  d: [1, 2]\n";
    let b = "a: 2\nb:\n  c: x\n  d: [2, 1]\ne: true\n";
    let (left, right, same, changed) = compare_yaml_strings(a, b).unwrap();
    assert!(left.is_empty());
    assert_eq!(right, vec!["/e"]);
    assert_eq!(same, vec!["/b/c"]);
    assert_eq!(changed, vec!["/a", "/b/d"]);
}

#[test]
fn compare_yaml_strings_rejects_invalid_first_text() {
    match compare_yaml_strings("a: [1, 2", "a: 1") {
        Err(CompareError::InvalidA(_)) => {}
        other => panic!("unexpected {:?}", other),
    }
}

#[test]
fn compare_yaml_strings_rejects_invalid_second_text() {
    match compare_yaml_strings("a: 1", "a: [1, 2") {
        Err(CompareError::InvalidB(_)) => {}
        other => panic!("unexpected {:?}", other),
    }
}

#[test]
fn every_key_is_placed_once() {
    let mut sub_a = NestedHashMap::new();
    sub_a.insert("d".to_string(), text("4"));
    let mut sub_b = NestedHashMap::new();
    sub_b.insert("d".to_string(), text("5"));
    let mut a = NestedHashMap::new();
    a.insert("same".to_string(), text("1"));
    a.insert("diff".to_string(), text("1"));
    a.insert("gone".to_string(), text("1"));
    a.insert("sub".to_string(), NestedValue::Mapping(sub_a));
    let mut b = NestedHashMap::new();
    b.insert("new".to_string(), text("1"));
    b.insert("diff".to_string(), text("2"));
    b.insert("same".to_string(), text("1"));
    b.insert("sub".to_string(), NestedValue::Mapping(sub_b));
    let (left, right, same, changed) = compare_dicts(&a, &b);
    let mut placed: Vec<String> = Vec::new();
    placed.extend(left.iter().cloned());
    placed.extend(same.iter().cloned());
    placed.extend(changed.iter().cloned());
    let top: Vec<String> = sorted(&placed).into_iter().filter(|p| p.matches('/').count() == 1).collect();
    assert_eq!(top, vec!["/diff", "/gone", "/same"]);
    assert_eq!(right, vec!["/new"]);
    assert_eq!(changed, vec!["/diff", "/sub/d"]);
    assert_eq!(left, vec!["/gone"]);
    assert_eq!(same, vec!["/same"]);
}
