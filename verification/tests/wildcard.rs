use pazifista::{wild_match, wild_match_any};

#[test]
fn empty_pattern_matches_everything() {
    assert!(wild_match("", "abc.txt"));
}

#[test]
fn star_and_question_follow_original_rules() {
    assert!(wild_match("*.txt", "folder/file.txt"));
    assert!(wild_match("*languagedata_??.txt", "res/text/languagedata_en.txt"));
    assert!(!wild_match("file?.txt", "file..txt"));
}

#[test]
fn match_is_case_insensitive() {
    assert!(wild_match("PAD*.PAZ", "pad00001.paz"));
}

#[test]
fn any_match_supports_multiple_filters() {
    let patterns = vec!["*.rid".to_string(), "*.bkd".to_string()];
    assert!(wild_match_any(&patterns, "ui_texture/minimap/area/map.bmp.rid"));
    assert!(wild_match_any(&patterns, "ui_texture/minimap/area/map.bmp.bkd"));
    assert!(!wild_match_any(&patterns, "ui_texture/minimap/area/map.bmp.png"));
}

#[test]
fn empty_filter_list_matches_everything() {
    assert!(wild_match_any(&[], "anything/goes.dat"));
}

#[test]
fn question_mark_needs_exactly_one_character() {
    assert!(wild_match("a?c", "abc"));
    assert!(!wild_match("a?c", "ac"));
    assert!(!wild_match("a?c", "abbc"));
}

#[test]
fn star_matches_an_empty_run() {
    assert!(wild_match("abc*", "abc"));
    assert!(wild_match("*abc", "abc"));
    assert!(!wild_match("abc", "abcd"));
}

#[test]
fn masks_match_as_stars_and_single_bytes_mean() {
    assert!(wild_match("a*b?c", "aXXbyc"));
    assert!(wild_match("a*b?c", "abbbc"));
    assert!(!wild_match("a*b?c", "ab.c"));
    assert!(wild_match("*.TXT", "dir/x.txt"));
    assert!(wild_match("**x", "x"));
    assert!(!wild_match("?", "."));
    assert!(!wild_match("a*", ""));
    assert!(wild_match("", ""));
}

#[test]
fn a_star_in_the_text_is_first_matched_literally() {
    assert!(!wild_match("*b", "*ab"));
    assert!(!wild_match("*", ""));
    assert!(wild_match("", "anything"));
}
