use taglog::tags::{find_tags, load_tags, merge, TagSet};

fn tag_sorted(ts: &TagSet) -> Vec<String> {
    let mut v: Vec<String> = ts.items().clone();
    v.sort();
    v
}

fn tags_of_text(text: &str) -> Vec<String> {
    tag_sorted(&find_tags(text))
}

#[test]
fn balanced_markers_each_once() {
    let got = tags_of_text("x{A}y{b}z{a} {b}");
    assert_eq!(got, vec!["{a}".to_string(), "{b}".to_string()]);
}

#[test]
fn nested_open_aborts_line() {
    let got = tags_of_text("{a{b}");
    assert_eq!(got.len(), 0);
}

#[test]
fn two_markers_back_to_back() {
    let got = tags_of_text("{a}{b}");
    assert_eq!(got, vec!["{a}".to_string(), "{b}".to_string()]);
}

#[test]
fn empty_marker_is_a_tag() {
    let got = tags_of_text("{}");
    assert_eq!(got, vec!["{}".to_string()]);
}

#[test]
fn stray_closing_brace_ignored() {
    let got = tags_of_text("}{a}");
    assert_eq!(got, vec!["{a}".to_string()]);
}

#[test]
fn tags_are_lower_cased() {
    let ts = find_tags("{Work}");
    assert!(ts.contains(&"{work}".to_string()));
    assert!(!ts.contains(&"{Work}".to_string()));
    assert_eq!(ts.items().len(), 1);
}

#[test]
fn abort_keeps_tags_found_earlier_on_line() {
    let got = tags_of_text("{a}{b{c}");
    assert_eq!(got, vec!["{a}".to_string()]);
}

#[test]
fn abort_does_not_spill_into_next_line() {
    let got = tags_of_text("{a{b\n{c}");
    assert_eq!(got, vec!["{c}".to_string()]);
}

#[test]
fn candidates_do_not_span_lines() {
    let got = tags_of_text("{a\nb}");
    assert_eq!(got.len(), 0);
}

#[test]
fn tag_may_hold_arbitrary_text() {
    let got = tags_of_text("note {a b!c?} end");
    assert_eq!(got, vec!["{a b!c?}".to_string()]);
}

#[test]
fn empty_text_has_no_tags() {
    assert_eq!(tags_of_text("").len(), 0);
}

#[test]
fn load_tags_unions_partitions() {
    let parts = vec![
        ("2024_1".to_string(), "one {a}\ntwo {B}\n".to_string()),
        ("2024_2".to_string(), "three {b} {c}\n".to_string()),
    ];
    let ts = load_tags(&parts);
    assert_eq!(
        tag_sorted(&ts),
        vec!["{a}".to_string(), "{b}".to_string(), "{c}".to_string()]
    );
}

#[test]
fn rebuilding_twice_gives_identical_sets() {
    let parts = vec![
        ("2024_1".to_string(), "x {a}{b}\n".to_string()),
        ("2024_2".to_string(), "y {b}\n".to_string()),
    ];
    let first = tag_sorted(&load_tags(&parts));
    let second = tag_sorted(&load_tags(&parts));
    assert_eq!(first, second);
}

#[test]
fn merge_order_does_not_matter() {
    let texts = ["a {X}", "{y} b", "{X}{z}"];
    let mut forward = TagSet::new();
    for t in texts.iter() {
        merge(&mut forward, t);
    }
    let mut backward = TagSet::new();
    for t in texts.iter().rev() {
        merge(&mut backward, t);
    }
    assert_eq!(tag_sorted(&forward), tag_sorted(&backward));
    assert_eq!(
        tag_sorted(&forward),
        vec!["{x}".to_string(), "{y}".to_string(), "{z}".to_string()]
    );
}

#[test]
fn merge_adds_to_existing_index() {
    let mut ts = find_tags("{a}");
    merge(&mut ts, "{b} and {a} again");
    assert_eq!(tag_sorted(&ts), vec!["{a}".to_string(), "{b}".to_string()]);
}
