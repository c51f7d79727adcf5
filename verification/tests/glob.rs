use savescummer_catalog::glob::{could_match_below, has_wildcard, match_path, match_segment};

#[test]
fn segments() {
    assert!(match_segment("user_*.dat", "user_0.dat", false));
    assert!(!match_segment("user_*.dat", "user_0.json", false));
    assert!(match_segment("Slot?.save", "SlotA.save", false));
    assert!(match_segment("save*", "save", false));
    assert!(match_segment("[abc]x", "bx", false));
    assert!(!match_segment("[!abc]x", "bx", false));
    assert!(match_segment("[a-c]x", "cx", false));
    assert!(match_segment("*", "anything", false));
    assert!(match_segment("SAVE*", "save1", true));
    assert!(!match_segment("SAVE*", "save1", false));
    assert!(match_segment("a*b*c", "aXXbYYc", false));
    assert!(!match_segment("a*b*c", "aXXbYY", false));
}

#[test]
fn paths() {
    assert!(match_path("C*/SGS*", "C1/SGS2", false));
    assert!(!match_path("C*/SGS*", "C1", false));
    assert!(match_path("**/x.sav", "a/b/x.sav", false));
    assert!(match_path("**/x.sav", "x.sav", false));
    assert!(could_match_below("C*/SGS*", "C1", false));
    assert!(!could_match_below("C*/SGS*", "D1", false));
    assert!(!could_match_below("C*/SGS*", "C1/SGS1", false));
}

#[test]
fn classes_negation_ranges_and_unclosed_brackets() {
    assert!(match_segment("[^abc]x", "dx", false));
    assert!(!match_segment("[^abc]x", "ax", false));
    assert!(match_segment("[]]x", "]x", false));
    assert!(match_segment("[a-]x", "-x", false));
    assert!(match_segment("[a", "[a", false));
    assert!(!match_segment("[a", "a", false));
    assert!(match_segment("x?", "xé", false));
    assert!(!match_segment("x?", "x", false));
}

#[test]
fn stars_backtrack_and_match_empty_runs() {
    assert!(match_segment("*", "", false));
    assert!(match_segment("**", "", false));
    assert!(match_segment("a*a*a", "aaa", false));
    assert!(match_segment("*ab", "aab", false));
    assert!(!match_segment("*ab", "aba", false));
    assert!(!match_segment("", "x", false));
    assert!(match_segment("", "", false));
}

#[test]
fn double_star_matches_any_depth_and_prunes_nothing() {
    assert!(match_path("**", "", false));
    assert!(match_path("**", "a/b/c", false));
    assert!(match_path("a/**/z", "a/z", false));
    assert!(match_path("a/**/z", "a/b/c/z", false));
    assert!(!match_path("a/**/z", "b/z", false));
    assert!(could_match_below("**", "anything/at/all", false));
    assert!(could_match_below("a/b", "", false));
    assert!(!could_match_below("", "", false));
}

#[test]
fn empty_segments_are_ignored_and_case_folding_applies_to_paths() {
    assert!(match_path("/saves//slot*/", "saves/slot1", false));
    assert!(match_path("SAVES/*.SAV", "saves/a.sav", true));
    assert!(!match_path("SAVES/*.SAV", "saves/a.sav", false));
}

#[test]
fn wildcard_detection() {
    assert!(has_wildcard("a*"));
    assert!(has_wildcard("a?"));
    assert!(has_wildcard("[a]"));
    assert!(!has_wildcard("plain.name"));
}

#[test]
fn without_double_star_matching_goes_segment_by_segment() {
    assert!(match_path("saves/*.sav", "saves/a.sav", false));
    assert!(!match_path("saves/*.sav", "saves/x/a.sav", false));
    assert!(!match_path("saves/*.sav", "saves", false));
    assert!(match_path("Saves/Slot?", "saves/slot1", true));
    assert!(!match_path("Saves/Slot?", "saves/slot1", false));
}

#[test]
fn pruning_keeps_every_folder_that_holds_a_match() {
    for (pattern, path, rest) in [
        ("saves/*/slot?", "saves", "a/slot1"),
        ("**/profile.sav", "a/b", "c/profile.sav"),
        ("data/*.dat", "data", "x.dat"),
    ] {
        assert!(match_path(pattern, &format!("{path}/{rest}"), false));
        assert!(could_match_below(pattern, path, false));
    }
    assert!(!could_match_below("saves/*/slot?", "other", false));
}

#[test]
fn a_leading_double_star_skips_any_number_of_segments() {
    assert!(match_path("**/slot1", "slot1", false));
    assert!(match_path("**/slot1", "a/b/slot1", false));
    assert!(!match_path("**/slot1", "a/b/slot2", false));
}
