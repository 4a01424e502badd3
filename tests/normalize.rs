use config_diff::document::convert_yaml_value_to_nested_value;
use config_diff::{yaml_string_to_nested_hash_map, NestedHashMap, NestedValue, YamlValue};

fn scalar(m: &NestedHashMap, key: &str) -> String {
    match m.get(&key.to_string()) {
        Some(NestedValue::Value(s)) => s.clone(),
        other => panic!("no scalar under {}: {:?}", key, other),
    }
}

#[test]
fn scalars_take_their_canonical_text() {
    let m = yaml_string_to_nested_hash_map("a: null\nb: true\nc: false\nd: 42\ne: 1.5\nf: text\ng: -3\n")
        .unwrap();
    assert_eq!(m.len(), 7);
    assert_eq!(scalar(&m, "a"), "null");
    assert_eq!(scalar(&m, "b"), "true");
    assert_eq!(scalar(&m, "c"), "false");
    assert_eq!(scalar(&m, "d"), "42");
    assert_eq!(scalar(&m, "e"), "1.5");
    assert_eq!(scalar(&m, "f"), "text");
    assert_eq!(scalar(&m, "g"), "-3");
}

#[test]
fn sequences_keep_their_order() {
    let m = yaml_string_to_nested_hash_map("l: [b, a, 3]\n").unwrap();
    match m.get(&"l".to_string()) {
        Some(NestedValue::List(items)) => {
            let texts: Vec<String> = items
                .iter()
                .map(|v| match v {
                    NestedValue::Value(s) => s.clone(),
                    other => panic!("unexpected {:?}", other),
                })
                .collect();
            assert_eq!(texts, vec!["b", "a", "3"]);
        }
        other => panic!("unexpected {:?}", other),
    }
}

#[test]
fn nested_mappings_become_maps() {
    let m = yaml_string_to_nested_hash_map("outer:\n  inner: 1\n  empty: {}\n").unwrap();
    match m.get(&"outer".to_string()) {
        Some(NestedValue::Mapping(sub)) => {
            assert_eq!(sub.len(), 2);
            assert_eq!(scalar(sub, "inner"), "1");
            match sub.get(&"empty".to_string()) {
                Some(NestedValue::Mapping(e)) => assert!(e.is_empty()),
                other => panic!("unexpected {:?}", other),
            }
        }
        other => panic!("unexpected {:?}", other),
    }
}

#[test]
fn non_string_keys_become_the_empty_key() {
    let m = yaml_string_to_nested_hash_map("1: one\n2: two\nk: v\n").unwrap();
    assert_eq!(m.len(), 2);
    assert_eq!(scalar(&m, ""), "two");
    assert_eq!(scalar(&m, "k"), "v");
    let (key, _) = m.entry(0);
    assert_eq!(key, "");
}

#[test]
fn a_root_that_is_not_a_mapping_gives_an_empty_map() {
    let m = yaml_string_to_nested_hash_map("- 1\n- 2\n").unwrap();
    assert!(m.is_empty());
    let s = yaml_string_to_nested_hash_map("just text").unwrap();
    assert!(s.is_empty());
}

#[test]
fn invalid_yaml_is_an_error() {
    assert!(yaml_string_to_nested_hash_map("a: [1, 2").is_err());
}

#[test]
fn normalizing_a_document_value() {
    let doc = YamlValue::Mapping(vec![
        (YamlValue::Str("k".to_string()), YamlValue::Sequence(vec![YamlValue::Null, YamlValue::Bool(true)])),
        (YamlValue::Bool(false), YamlValue::Number("7".to_string())),
    ]);
    match convert_yaml_value_to_nested_value(&doc) {
        NestedValue::Mapping(m) => {
            assert_eq!(m.len(), 2);
            assert_eq!(scalar(&m, ""), "7");
            match m.get(&"k".to_string()) {
                Some(NestedValue::List(items)) => {
                    assert_eq!(items.len(), 2);
                    assert!(matches!(&items[0], NestedValue::Value(s) if s == "null"));
                    assert!(matches!(&items[1], NestedValue::Value(s) if s == "true"));
                }
                other => panic!("unexpected {:?}", other),
            }
        }
        other => panic!("unexpected {:?}", other),
    }
}
