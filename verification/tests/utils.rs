use blackboard::utils::{format_depends, normalize_depends, parse_depends};

#[test]
fn parse_depends_handles_none_and_empty() {
    assert_eq!(parse_depends(None).expect("parse should succeed"), None);
    assert_eq!(
        parse_depends(Some("".to_string())).expect("parse should succeed"),
        Some(Vec::new())
    );
    assert_eq!(
        parse_depends(Some("  ".to_string())).expect("parse should succeed"),
        Some(Vec::new())
    );
}

#[test]
fn parse_depends_parses_comma_separated_ids() {
    let parsed = parse_depends(Some("3, 1,2".to_string())).expect("parse should succeed");
    assert_eq!(parsed, Some(vec![3, 1, 2]));
}

#[test]
fn parse_depends_rejects_invalid_values() {
    let err = parse_depends(Some("1,x".to_string())).expect_err("parse should fail");
    assert_eq!(err.to_string(), "input: invalid task id 'x'");
}

#[test]
fn normalize_depends_sorts_and_deduplicates() {
    assert_eq!(normalize_depends(vec![5, 1, 3, 1, 5]), vec![1, 3, 5]);
}

#[test]
fn format_depends_matches_cli_output_style() {
    assert_eq!(format_depends(&[]).as_str(), "[]");
    assert_eq!(format_depends(&[2, 4, 8]).as_str(), "[2, 4, 8]");
}

#[test]
fn parse_depends_skips_empty_items_and_keeps_repeats() {
    let parsed = parse_depends(Some(" 4,,4 , -2,".to_string())).expect("parse should succeed");
    assert_eq!(parsed, Some(vec![4, 4, -2]));
}

#[test]
fn parse_depends_rejects_values_beyond_i64() {
    let err = parse_depends(Some("9223372036854775808".to_string())).expect_err("parse should fail");
    assert_eq!(err.to_string(), "input: invalid task id '9223372036854775808'");
    let ok = parse_depends(Some("+7,-9223372036854775808".to_string())).expect("parse should succeed");
    assert_eq!(ok, Some(vec![7, i64::MIN]));
}

#[test]
fn normalize_depends_of_empty_and_negative_ids() {
    assert_eq!(normalize_depends(Vec::new()), Vec::<i64>::new());
    assert_eq!(normalize_depends(vec![0, -3, 7, -3]), vec![-3, 0, 7]);
}

#[test]
fn format_depends_of_one_and_negative_ids() {
    assert_eq!(format_depends(&[42]).as_str(), "[42]");
    assert_eq!(format_depends(&[-1, 0]).as_str(), "[-1, 0]");
}

#[test]
fn now_secs_is_after_the_epoch() {
    assert!(blackboard::utils::now_secs() > 1_600_000_000);
}

#[test]
fn secs_to_timestamp_maps_failure_to_zero() {
    assert_eq!(blackboard::utils::secs_to_timestamp(None), 0);
    assert_eq!(blackboard::utils::secs_to_timestamp(Some(12)), 12);
}

#[test]
fn joined_decimal_ids_read_back() {
    let ids: Vec<i64> = vec![3, -1, 3, i64::MIN, i64::MAX, 0];
    let raw = ids.iter().map(|x| x.to_string()).collect::<Vec<_>>().join(",");
    assert_eq!(parse_depends(Some(raw)).expect("parse should succeed"), Some(ids));
}

#[test]
fn comma_space_joined_ids_read_back() {
    let ids: Vec<i64> = vec![5, -1, 5, 0, i64::MAX];
    let raw = ids.iter().map(|x| x.to_string()).collect::<Vec<_>>().join(", ");
    assert_eq!(parse_depends(Some(raw)).expect("parse should succeed"), Some(ids));
}

#[test]
fn white_space_only_list_has_no_ids() {
    assert_eq!(parse_depends(Some(" \t ".to_string())).expect("parse should succeed"), Some(vec![]));
}
