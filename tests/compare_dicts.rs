use config_diff::{compare_dicts, NestedHashMap, NestedValue};

fn nested_map(map: NestedHashMap) -> NestedValue {
    NestedValue::Mapping(map)
}

fn nested_value(value: &str) -> NestedValue {
    NestedValue::Value(value.to_string())
}

fn sorted(v: &[String]) -> Vec<String> {
    let mut out = v.to_vec();
    out.sort();
    out
}

#[test]
fn compare_dicts_basic() {
    let mut dict_a = NestedHashMap::new();
    dict_a.insert("a".to_string(), nested_value("1"));
    dict_a.insert("b".to_string(), nested_value("2"));
    let mut sub_map_a = NestedHashMap::new();
    sub_map_a.insert("d".to_string(), nested_value("4"));
    sub_map_a.insert("e".to_string(), nested_value("5"));
    dict_a.insert("c".to_string(), nested_map(sub_map_a));

    let mut dict_b = NestedHashMap::new();
    dict_b.insert("a".to_string(), nested_value("1"));
    dict_b.insert("b".to_string(), nested_value("3"));
    dict_b.insert("f".to_string(), nested_value("6"));
    let mut sub_map_b = NestedHashMap::new();
    sub_map_b.insert("d".to_string(), nested_value("4"));
    sub_map_b.insert("g".to_string(), nested_value("7"));
    dict_b.insert("c".to_string(), nested_map(sub_map_b));

    let (left_not_right, right_not_left, same_key_same_value, same_key_diff_value) =
        compare_dicts(&dict_a, &dict_b);

    assert_eq!(left_not_right, vec!["/c/e"]);
    assert_eq!(right_not_left, vec!["/f", "/c/g"]);
    assert_eq!(same_key_same_value, vec!["/a", "/c/d"]);
    assert_eq!(same_key_diff_value, vec!["/b"]);
}

#[test]
fn compare_dicts_diff_keys_in_nested() {
    let mut dict_c_1 = NestedHashMap::new();
    dict_c_1.insert("a".to_string(), nested_value("1"));
    dict_c_1.insert("b".to_string(), nested_value("2"));
    let mut sub_map_c_1 = NestedHashMap::new();
    sub_map_c_1.insert("d".to_string(), nested_value("4"));
    sub_map_c_1.insert("e".to_string(), nested_value("5"));
    sub_map_c_1.insert("f".to_string(), nested_value("6"));
    sub_map_c_1.insert("h".to_string(), nested_value("10"));
    dict_c_1.insert("c".to_string(), nested_map(sub_map_c_1));

    let mut dict_d_1 = NestedHashMap::new();
    dict_d_1.insert("a".to_string(), nested_value("1"));
    dict_d_1.insert("b".to_string(), nested_value("2"));
    let mut sub_map_d_1 = NestedHashMap::new();
    sub_map_d_1.insert("d".to_string(), nested_value("4"));
    sub_map_d_1.insert("e".to_string(), nested_value("5"));
    sub_map_d_1.insert("f".to_string(), nested_value("7"));
    sub_map_d_1.insert("g".to_string(), nested_value("10"));
    dict_d_1.insert("c".to_string(), nested_map(sub_map_d_1));

    let (left_not_right, right_not_left, same_key_same_value, same_key_diff_value) =
        compare_dicts(&dict_c_1, &dict_d_1);

    assert_eq!(left_not_right, vec!["/c/h"]);
    assert_eq!(right_not_left, vec!["/c/g"]);
    assert_eq!(sorted(&same_key_same_value), vec!["/a", "/b", "/c/d", "/c/e"]);
    assert_eq!(same_key_diff_value, vec!["/c/f"]);
}

#[test]
fn compare_dicts_all_diff() {
    let mut dict_e = NestedHashMap::new();
    dict_e.insert("a".to_string(), nested_value("1"));
    dict_e.insert("b".to_string(), nested_value("2"));
    let mut sub_map_e = NestedHashMap::new();
    sub_map_e.insert("d".to_string(), nested_value("4"));
    sub_map_e.insert("e".to_string(), nested_value("5"));
    dict_e.insert("c".to_string(), nested_map(sub_map_e));

    let mut dict_f = NestedHashMap::new();
    dict_f.insert("g".to_string(), nested_value("6"));
    dict_f.insert("h".to_string(), nested_value("7"));
    let mut sub_map_f = NestedHashMap::new();
    sub_map_f.insert("j".to_string(), nested_value("8"));
    sub_map_f.insert("k".to_string(), nested_value("9"));
    dict_f.insert("i".to_string(), nested_map(sub_map_f));

    let (left_not_right, right_not_left, same_key_same_value, same_key_diff_value) =
        compare_dicts(&dict_e, &dict_f);

    assert_eq!(sorted(&left_not_right), vec!["/a", "/b", "/c"]);
    assert_eq!(sorted(&right_not_left), vec!["/g", "/h", "/i"]);
    assert_eq!(sorted(&same_key_same_value), Vec::<&str>::new());
    assert_eq!(sorted(&same_key_diff_value), Vec::<&str>::new());
}

#[test]
fn test_compare_dicts_with_empty() {
    let mut dict_g = NestedHashMap::new();
    let mut sub_map_g = NestedHashMap::new();
    sub_map_g.insert(
        "live-reloaded-config".to_string(),
        nested_map(NestedHashMap::new()),
    );
    sub_map_g.insert(
        "rolling-restart-config".to_string(),
        nested_map(NestedHashMap::new()),
    );
    dict_g.insert("0.0.0".to_string(), nested_map(sub_map_g));

    let dict_h = dict_g.clone();

    let (left_not_right, right_not_left, same_key_same_value, same_key_diff_value) =
        compare_dicts(&dict_g, &dict_h);

    assert_eq!(left_not_right, Vec::<String>::new());
    assert_eq!(right_not_left, Vec::<String>::new());
    assert_eq!(
        same_key_same_value,
        vec![
            "/0.0.0/live-reloaded-config",
            "/0.0.0/rolling-restart-config"
        ]
    );
    assert_eq!(same_key_diff_value, Vec::<String>::new());
}

#[test]
fn test_compare_dicts_with_diff_list() {
    let mut dict_a = NestedHashMap::new();
    dict_a.insert(
        "versions".to_string(),
        NestedValue::List(vec![
            NestedValue::Value("1.0.0".to_string()),
            NestedValue::Value("1.0.1".to_string()),
        ]),
    );

    let mut dict_b = NestedHashMap::new();
    dict_b.insert(
        "versions".to_string(),
        NestedValue::List(vec![
            NestedValue::Value("1.0.0".to_string()),
            NestedValue::Value("1.0.2".to_string()),
        ]),
    );

    let (left_not_right, right_not_left, same_key_same_value, same_key_diff_value) =
        compare_dicts(&dict_a, &dict_b);

    assert_eq!(left_not_right, Vec::<String>::new());
    assert_eq!(right_not_left, Vec::<String>::new());
    assert_eq!(same_key_same_value, Vec::<String>::new());
    assert_eq!(same_key_diff_value, vec!["/versions"]);
}

#[test]
fn test_compare_dicts_with_same_list() {
    let mut dict_a = NestedHashMap::new();
    dict_a.insert(
        "versions".to_string(),
        NestedValue::List(vec![
            NestedValue::Value("1.0.0".to_string()),
            NestedValue::Value("1.0.1".to_string()),
        ]),
    );

    let mut dict_b = NestedHashMap::new();
    dict_b.insert(
        "versions".to_string(),
        NestedValue::List(vec![
            NestedValue::Value("1.0.0".to_string()),
            NestedValue::Value("1.0.1".to_string()),
        ]),
    );

    let (left_not_right, right_not_left, same_key_same_value, same_key_diff_value) =
        compare_dicts(&dict_a, &dict_b);

    assert_eq!(left_not_right, Vec::<String>::new());
    assert_eq!(right_not_left, Vec::<String>::new());
    assert_eq!(same_key_diff_value, Vec::<String>::new());
    assert_eq!(same_key_same_value, vec!["/versions"]);
}

#[test]
fn test_compare_dicts_with_different_list_sizes() {
    let mut dict_a = NestedHashMap::new();
    dict_a.insert(
        "versions".to_string(),
        NestedValue::List(vec![
            NestedValue::Value("1.0.0".to_string()),
            NestedValue::Value("1.0.1".to_string()),
        ]),
    );

    let mut dict_b = NestedHashMap::new();
    dict_b.insert(
        "versions".to_string(),
        NestedValue::List(vec![NestedValue::Value("1.0.0".to_string())]),
    );

    let (left_not_right, right_not_left, same_key_same_value, same_key_diff_value) =
        compare_dicts(&dict_a, &dict_b);

    assert_eq!(left_not_right, Vec::<String>::new());
    assert_eq!(right_not_left, Vec::<String>::new());
    assert_eq!(same_key_same_value, Vec::<String>::new());
    assert_eq!(same_key_diff_value, vec!["/versions"]);
}
