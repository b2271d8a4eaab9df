use ontime::meta::{
    extract_targets_from_tg_content, extract_time_bound_from_tg_content,
    time_bound_from_meta_content,
};

#[test]
fn test_time_bound_from_content() {
    let content = "// a comment\n// time_bound: 12\nnode s0\n";
    assert_eq!(extract_time_bound_from_tg_content(content), Some(12));
}

#[test]
fn test_time_bound_first_readable_line_wins() {
    let content = "// time_bound: not-a-number\n// time_bound: 7\n// time_bound: 9\n";
    assert_eq!(extract_time_bound_from_tg_content(content), Some(7));
}

#[test]
fn test_time_bound_accepts_spaces_and_plus() {
    let content = "// time_bound:  +42 \r\n";
    assert_eq!(extract_time_bound_from_tg_content(content), Some(42));
}

#[test]
fn test_time_bound_absent_or_unreadable() {
    assert_eq!(extract_time_bound_from_tg_content(""), None);
    assert_eq!(extract_time_bound_from_tg_content("no bounds here\n"), None);
    // an empty number, a negative number and an overflowing number are
    // all unreadable
    assert_eq!(extract_time_bound_from_tg_content("// time_bound: \n"), None);
    assert_eq!(
        extract_time_bound_from_tg_content("// time_bound: -3\n"),
        None
    );
    assert_eq!(
        extract_time_bound_from_tg_content(
            "// time_bound: 99999999999999999999999999999999999999\n"
        ),
        None
    );
}

#[test]
fn test_time_bound_prefix_must_match_exactly() {
    // the comment marker is part of the prefix in a graph description...
    assert_eq!(extract_time_bound_from_tg_content("time_bound: 5\n"), None);
    // ...and must be absent in a metadata file
    assert_eq!(time_bound_from_meta_content("time_bound: 5\n"), Some(5));
    assert_eq!(time_bound_from_meta_content("// time_bound: 5\n"), None);
}

#[test]
fn test_targets_from_content() {
    let content = "// time_bound: 3\n// targets: v1,v2 \nrest\n";
    assert_eq!(
        extract_targets_from_tg_content(content),
        Some("v1,v2".to_string())
    );
    assert_eq!(extract_targets_from_tg_content("nothing\n"), None);
    // the first carrying line wins, even when empty after trimming
    let twice = "// targets: \n// targets: v9\n";
    assert_eq!(extract_targets_from_tg_content(twice), Some(String::new()));
}

