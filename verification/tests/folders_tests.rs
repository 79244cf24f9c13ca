use toolbox::folders::{
    eq_uid, find_possible_matches, remove_groups, remove_l_brackets, remove_m_brackets, remove_s_brackets, uid,
    without_brackets,
};

#[test]
fn folder_ids_are_long_numbers() {
    assert_eq!(uid("artist 12 (1234567)"), Some(1234567));
    assert_eq!(uid("12345 short"), None);
    assert_eq!(uid("a123456b999999"), Some(123456));
    assert!(eq_uid("x_0012345678", "y 12345678"));
    assert!(!eq_uid("none", "none"));
}

#[test]
fn matches_are_ranked_and_cut() {
    let cands = vec![("a".to_string(), 40u64), ("b".to_string(), 90), ("c".to_string(), 60), ("d".to_string(), 90)];
    let ranked = find_possible_matches(&cands, 60);
    let names: Vec<(&str, u64)> = ranked.iter().map(|c| (c.0.as_str(), c.1)).collect();
    assert_eq!(names, vec![("b", 90), ("d", 90), ("c", 60)]);
}

#[test]
fn bracket_groups_are_removed_as_the_pattern_matches_them() {
    assert_eq!(remove_m_brackets("[Studio] Title (2019) {v2}"), " Title (2019) {v2}");
    assert_eq!(remove_l_brackets("[Studio] Title (2019) {v2}"), "[Studio] Title (2019) ");
    // Digits alone between the brackets are kept.
    assert_eq!(remove_s_brackets("[Studio] Title (2019) {v2}"), "[Studio] Title (2019) {v2}");
    assert_eq!(without_brackets("[Studio] Title (2019) {v2}"), " Title (2019) ");
    assert_eq!(remove_s_brackets("Album (Deluxe Edition) [FLAC]"), "Album  [FLAC]");
    assert_eq!(without_brackets("Album (Deluxe Edition) [FLAC]"), "Album  ");
    // More than two runs of digits are kept.
    assert_eq!(without_brackets("Show (123456) (a1b2c3)"), "Show (123456) (a1b2c3)");
    // A group reaches to the last bracket that can close it.
    assert_eq!(remove_s_brackets("(12)(ab)"), "");
    assert_eq!(remove_s_brackets("x(a)y(b)z"), "xz");
    assert_eq!(remove_m_brackets("[a][b]"), "");
    assert_eq!(remove_s_brackets("(1a2b)("), "(");
    assert_eq!(remove_l_brackets("{1}{a1}"), "");
    assert_eq!(without_brackets("[2020] (1080p) {x264-Group}"), "[2020]  ");
    assert_eq!(remove_groups("no brackets", '(', ')'), "no brackets");
}

#[test]
fn digits_of_every_script_count_as_digits_in_brackets() {
    // Only digits between the brackets: kept, whatever the script.
    assert_eq!(remove_s_brackets("a(١٢٣)b"), "a(١٢٣)b");
    // A letter and one run of digits: removed.
    assert_eq!(remove_s_brackets("x(١a)y"), "xy");
    // Three runs of digits: kept.
    assert_eq!(remove_m_brackets("[١a2b٣]"), "[١a2b٣]");
}
