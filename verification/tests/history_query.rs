use taglog::history::{get_history_string, history_for};
use taglog::store::{fallback_history, format_entry_line, partition_key};

#[test]
fn render_sorts_months_numerically_descending() {
    let parts = vec![
        ("2024_9".to_string(), "l1\nl2\n".to_string()),
        ("2024_10".to_string(), "a\nb\n".to_string()),
    ];
    let got = get_history_string(parts);
    assert_eq!(got, "2024_10:\nb\na\n2024_9:\nl2\nl1");
}

#[test]
fn render_sorts_years_before_months() {
    let parts = vec![
        ("2023_12".to_string(), "old\n".to_string()),
        ("2024_1".to_string(), "new\n".to_string()),
    ];
    let got = get_history_string(parts);
    assert_eq!(got, "2024_1:\nnew\n2023_12:\nold");
}

#[test]
fn render_reverses_lines_within_a_partition() {
    let parts = vec![("2024_3".to_string(), "first\nsecond\nthird\n".to_string())];
    let got = get_history_string(parts);
    assert_eq!(got, "2024_3:\nthird\nsecond\nfirst");
}

#[test]
fn render_of_no_partitions_is_empty() {
    let got = get_history_string(Vec::new());
    assert_eq!(got, "");
}

#[test]
fn malformed_key_displays_last() {
    let parts = vec![
        ("_".to_string(), "Failed to read history.".to_string()),
        ("2024_1".to_string(), "entry\n".to_string()),
    ];
    let got = get_history_string(parts);
    assert_eq!(got, "2024_1:\nentry\n_:\nFailed to read history.");
}

#[test]
fn history_for_keeps_only_the_month() {
    let parts = vec![
        ("2024_1".to_string(), "jan\n".to_string()),
        ("2024_2".to_string(), "feb\n".to_string()),
    ];
    let only = history_for(&parts, 2024, 2);
    assert_eq!(only.len(), 1);
    assert_eq!(only[0].0, "2024_2");
    assert_eq!(only[0].1, "feb\n");
}

#[test]
fn history_for_missing_month_renders_empty() {
    let parts = vec![("2024_9".to_string(), "something\n".to_string())];
    let none = history_for(&parts, 2099, 1);
    assert_eq!(none.len(), 0);
    assert_eq!(get_history_string(none), "");
}

#[test]
fn history_for_does_not_match_padded_keys() {
    let parts = vec![("2024_02".to_string(), "padded\n".to_string())];
    let none = history_for(&parts, 2024, 2);
    assert_eq!(none.len(), 0);
}

#[test]
fn round_trip_within_one_month() {
    let l1 = format_entry_line(100, "Mon", 1, 1, 2024, "one");
    let l2 = format_entry_line(200, "Tue", 2, 1, 2024, "two");
    let l3 = format_entry_line(300, "Wed", 3, 1, 2024, "three");
    let key = partition_key(2024, 1);
    let mut content = String::new();
    content.push_str(&l1);
    content.push_str(&l2);
    content.push_str(&l3);
    let parts = vec![(key, content)];
    let got = get_history_string(history_for(&parts, 2024, 1));
    assert_eq!(
        got,
        "2024_1:\n300 Wed 3 1 2024: three\n200 Tue 2 1 2024: two\n100 Mon 1 1 2024: one"
    );
}

#[test]
fn fallback_history_is_the_placeholder_pair() {
    let v = fallback_history();
    assert_eq!(v.len(), 1);
    assert_eq!(v[0].0, "_");
    assert_eq!(v[0].1, "Failed to read history.");
}

#[test]
fn entry_line_format_is_exact() {
    let line = format_entry_line(5, "Mon", 3, 4, 2024, "hi");
    assert_eq!(line, "5 Mon 3 4 2024: hi\n");
}

#[test]
fn entry_line_keeps_negative_timestamp() {
    let line = format_entry_line(-5, "Sun", 31, 12, 1969, "early");
    assert_eq!(line, "-5 Sun 31 12 1969: early\n");
}

#[test]
fn partition_key_is_unpadded() {
    assert_eq!(partition_key(2024, 5), "2024_5");
    assert_eq!(partition_key(2024, 12), "2024_12");
}

#[test]
fn partition_key_of_negative_year() {
    assert_eq!(partition_key(-7, 1), "-7_1");
}

#[test]
fn current_date_parts_are_in_range() {
    let (_ts, weekday, day, month, year) = taglog::store::current_date_parts();
    assert!((1..=31).contains(&day));
    assert!((1..=12).contains(&month));
    assert!(["Mon", "Tue", "Wed", "Thu", "Fri", "Sat", "Sun"].contains(&weekday.as_str()));
    assert!(year >= 2020);
    let key = partition_key(year as i64, month as u64);
    assert_eq!(key, format!("{}_{}", year, month));
}

#[test]
fn multi_line_submission_renders_line_by_line() {
    let parts = vec![("2024_4".to_string(), "10 Mon 1 4 2024: a\nb\n".to_string())];
    let got = get_history_string(parts);
    assert_eq!(got, "2024_4:\nb\n10 Mon 1 4 2024: a");
}
