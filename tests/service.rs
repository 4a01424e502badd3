use config_diff::models::{DiffBaseSchema, FileDiff, SerializableContent, SerializableContentItems};
use config_diff::service::{
    config_folders, config_overrides_path, folder_file_diff, latest_diffs, new_file_diff,
    toggled_review,
};
use config_diff::CompareError;

fn item(path: &str, kind: &str) -> SerializableContent {
    SerializableContent {
        name: path.to_string(),
        path: path.to_string(),
        content: None,
        url: String::new(),
        html_url: None,
        git_url: None,
        download_url: None,
        item_type: kind.to_string(),
    }
}

fn record(file: &str, created_at: Option<i64>) -> FileDiff {
    FileDiff {
        id: None,
        stack_a: "a".to_string(),
        stack_b: "b".to_string(),
        file: file.to_string(),
        left_not_right: Vec::new(),
        right_not_left: Vec::new(),
        same_key_diff_value: Vec::new(),
        reviewed: Some("false".to_string()),
        created_at,
        updated_at: created_at,
    }
}

fn s(v: &str) -> String {
    v.to_string()
}

#[test]
fn config_file_path_of_a_folder() {
    assert_eq!(config_overrides_path(&s("svc/api")), "svc/api/config-overrides.yml");
}

#[test]
fn only_directories_are_compared_first_listing_first() {
    let a = SerializableContentItems { items: vec![item("x", "dir"), item("README.md", "file")] };
    let b = SerializableContentItems { items: vec![item("y", "file"), item("z", "dir")] };
    assert_eq!(config_folders(&a, &b), vec!["x", "z"]);
}

#[test]
fn a_missing_second_file_is_recorded_as_left_only() {
    let d = folder_file_diff(&s("a"), &s("b"), &s("svc"), "k: 1", None, 1000).unwrap().unwrap();
    assert_eq!(d.left_not_right, vec!["/*"]);
    assert!(d.right_not_left.is_empty() && d.same_key_diff_value.is_empty());
    assert_eq!(d.file, "svc");
    assert_eq!(d.reviewed.as_deref(), Some("false"));
    assert_eq!(d.created_at, Some(1000));
    assert_eq!(d.updated_at, Some(1000));
    assert!(d.id.is_none());
}

#[test]
fn an_unchanged_configuration_gives_no_record() {
    let r = folder_file_diff(&s("a"), &s("b"), &s("svc"), "k: 1\n", Some("k: 1\n"), 5).unwrap();
    assert!(r.is_none());
}

#[test]
fn a_changed_configuration_gives_a_record() {
    let d = folder_file_diff(&s("a"), &s("b"), &s("svc"), "k: 1\nx: 2\n", Some("k: 2\ny: 3\n"), 5)
        .unwrap()
        .unwrap();
    assert_eq!(d.left_not_right, vec!["/x"]);
    assert_eq!(d.right_not_left, vec!["/y"]);
    assert_eq!(d.same_key_diff_value, vec!["/k"]);
    assert_eq!(d.stack_a, "a");
    assert_eq!(d.stack_b, "b");
}

#[test]
fn two_empty_configurations_still_give_a_record() {
    let d = folder_file_diff(&s("a"), &s("b"), &s("svc"), "{}", Some("{}"), 5).unwrap().unwrap();
    assert!(d.left_not_right.is_empty() && d.right_not_left.is_empty());
}

#[test]
fn an_invalid_configuration_is_an_error() {
    match folder_file_diff(&s("a"), &s("b"), &s("svc"), "k: [1", Some("k: 1"), 5) {
        Err(CompareError::InvalidA(_)) => {}
        other => panic!("unexpected {:?}", other),
    }
}

#[test]
fn a_new_record_is_not_reviewed() {
    let payload = DiffBaseSchema {
        stack_a: s("a"),
        stack_b: s("b"),
        file: s("f"),
        left_not_right: vec![s("/x")],
        right_not_left: Vec::new(),
        same_key_diff_value: vec![s("/k")],
        created_at: Some(1),
        updated_at: Some(2),
    };
    let d = new_file_diff(payload, 77);
    assert_eq!(d.reviewed.as_deref(), Some("false"));
    assert_eq!(d.created_at, Some(77));
    assert_eq!(d.updated_at, Some(77));
    assert_eq!(d.left_not_right, vec!["/x"]);
    assert_eq!(d.same_key_diff_value, vec!["/k"]);
}

#[test]
fn review_flag_flips() {
    assert_eq!(toggled_review(&Some(s("false"))).as_deref(), Some("true"));
    assert_eq!(toggled_review(&Some(s("true"))).as_deref(), Some("false"));
    assert_eq!(toggled_review(&Some(s("maybe"))), None);
    assert_eq!(toggled_review(&None), None);
}

#[test]
fn latest_diffs_keep_the_latest_records_in_order() {
    let diffs = vec![
        record("one", Some(5)),
        record("two", Some(9)),
        record("three", None),
        record("four", Some(9)),
    ];
    let kept = latest_diffs(diffs).unwrap();
    let files: Vec<&str> = kept.iter().map(|d| d.file.as_str()).collect();
    assert_eq!(files, vec!["two", "four"]);
}

#[test]
fn latest_diffs_of_nothing_is_not_found() {
    let e = latest_diffs(Vec::new()).unwrap_err();
    assert_eq!(e.status, 404);
    assert_eq!(e.message, "Couldn't get diff for these stacks");
}

#[test]
fn latest_diffs_without_dates_is_an_error() {
    let e = latest_diffs(vec![record("one", None)]).unwrap_err();
    assert_eq!(e.status, 500);
}
