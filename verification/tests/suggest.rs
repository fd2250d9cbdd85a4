use jr_sema::suggest::{edit_distance, nearest, str_eq, threshold};

#[test]
fn a_one_character_typo_in_a_short_name_is_not_a_suggestion() {
    assert_eq!(nearest("z", &["x", "y", "w"]), None);
}

#[test]
fn a_transposition_is_within_reach() {
    assert_eq!(nearest("cuont", &["count", "data"]), Some("count"));
}

#[test]
fn a_missing_character_is_within_reach() {
    assert_eq!(nearest("cout", &["count"]), Some("count"));
}

#[test]
fn an_unrelated_name_is_not_suggested() {
    assert_eq!(nearest("height", &["x", "y", "count"]), None);
}

#[test]
fn the_nearest_of_several_wins() {
    assert_eq!(nearest("widht", &["height", "width", "depth"]), Some("width"));
}

#[test]
fn an_exact_match_is_not_a_suggestion() {
    assert_eq!(nearest("count", &["count"]), None);
}

#[test]
fn a_long_name_tolerates_two_but_not_three() {
    assert_eq!(nearest("SHAPES_VERSIN", &["SHAPES_VERSION"]), Some("SHAPES_VERSION"));
    assert_eq!(nearest("SHAPES", &["SHAPES_VERSION"]), None);
}

#[test]
fn the_threshold_scales_but_is_capped() {
    assert_eq!(threshold("x"), 0);
    assert_eq!(threshold("xy"), 0);
    assert_eq!(threshold("abc"), 1);
    assert_eq!(threshold("abcdef"), 2);
    assert_eq!(threshold("a_very_long_identifier_indeed"), 2);
}

#[test]
fn a_transposition_costs_one_not_two() {
    assert_eq!(edit_distance("cuont", "count", 2), 1);
    assert_eq!(edit_distance("ab", "ba", 2), 1);
}

#[test]
fn an_exact_match_anywhere_silences_the_guess() {
    // An exact match later in the list still wins over a near one earlier.
    assert_eq!(nearest("count", &["coutn", "count"]), None);
}

#[test]
fn ties_go_to_the_first_candidate() {
    assert_eq!(nearest("abcd", &["abce", "abcf"]), Some("abce"));
}

#[test]
fn a_length_difference_beyond_the_limit_short_circuits() {
    assert_eq!(edit_distance("a", "abcdef", 2), 3);
    assert_eq!(edit_distance("kitten", "sitting", 5), 3);
    assert_eq!(edit_distance("", "", 0), 0);
    assert_eq!(edit_distance("abc", "", 3), 3);
}

#[test]
fn distances_count_characters_not_bytes() {
    assert_eq!(threshold("ééé"), 1);
    assert_eq!(edit_distance("é", "e", 1), 1);
}

#[test]
fn strings_compare_by_characters() {
    assert!(str_eq("count", "count"));
    assert!(!str_eq("count", "coun"));
    assert!(!str_eq("count", "cuont"));
}
