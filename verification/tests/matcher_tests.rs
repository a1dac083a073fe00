use easy_project_finder::matcher::score;
use easy_project_finder::matcher::MAX_SCORED_CHARS;

#[test]
fn pattern_found_as_subsequence_scores() {
    assert!(score("ap", "apple").is_some());
    assert!(score("ap", "apricot").is_some());
    assert!(score("abc", "axbycz").is_some());
    assert!(score("xyz", "axbycz").is_some());
}

#[test]
fn pattern_not_a_subsequence_does_not_match() {
    assert_eq!(score("ap", "banana"), None);
    assert_eq!(score("abx", "abc"), None);
    assert_eq!(score("pa", "apple"), None);
}

#[test]
fn prefix_match_has_its_documented_score() {
    // 16 per matched character, 16 for the head of the name (the head bonus
    // of 8, doubled for the first character), minus the skip of one gap
    // extension in front of the name, plus 4 for the consecutive second
    // character.
    assert_eq!(score("ap", "apple"), Some(51));
    assert_eq!(score("ap", "apricot"), Some(51));
}

#[test]
fn single_leading_character_has_its_documented_score() {
    assert_eq!(score("a", "apple"), Some(31));
}

#[test]
fn matches_further_in_have_their_documented_scores() {
    // Head of the name, a gap of six, then the head of a word.
    assert_eq!(score("ap", "a_long_path"), Some(45));
    // Two consecutive characters in the middle of a word.
    assert_eq!(score("ap", "snapshot"), Some(35));
}

#[test]
fn case_mismatch_has_its_documented_score() {
    assert_eq!(score("ap", "Apple"), Some(49));
    assert_eq!(score("ap", "APPLE"), Some(47));
}

#[test]
fn contiguous_prefix_outscores_scattered_match() {
    let prefix = score("ap", "apple").unwrap();
    let scattered = score("ap", "a_long_path").unwrap();
    let inner = score("ap", "snapshot").unwrap();
    assert!(prefix > scattered);
    assert!(prefix > inner);
}

#[test]
fn empty_pattern_matches_everything_with_zero() {
    assert_eq!(score("", "apple"), Some(0));
    assert_eq!(score("", ""), Some(0));
    assert_eq!(score("", "Any Name.txt"), Some(0));
}

#[test]
fn non_empty_pattern_never_matches_empty_name() {
    assert_eq!(score("a", ""), None);
}

#[test]
fn name_matches_itself() {
    for name in ["a", "apple", "Apple", "src", "my-project_2", "Ünïcödé", "with space", "日本語"] {
        assert!(score(name, name).is_some(), "{name} must match itself");
    }
}

#[test]
fn pattern_with_absent_character_does_not_match() {
    assert_eq!(score("apz", "apple"), None);
    assert_eq!(score("q", "apple"), None);
    assert_eq!(score("appleé", "apple"), None);
}

#[test]
fn lower_case_pattern_ignores_ascii_case() {
    assert!(score("ap", "APPLE").is_some());
    assert!(score("readme", "ReadMe.md").is_some());
}

#[test]
fn pattern_with_upper_case_is_case_sensitive() {
    assert_eq!(score("AP", "apple"), None);
    assert_eq!(score("Ap", "apple"), None);
    assert!(score("Ap", "Apple").is_some());
}

#[test]
fn case_folding_is_ascii_only() {
    assert_eq!(score("é", "É"), None);
    assert!(score("é", "é").is_some());
}

#[test]
fn case_mismatch_scores_lower_than_exact_case() {
    let exact = score("ap", "apple").unwrap();
    let folded = score("ap", "Apple").unwrap();
    assert!(exact > folded);
}

#[test]
fn overlong_name_is_never_matched() {
    let fits = "a".repeat(MAX_SCORED_CHARS);
    let too_long = "a".repeat(MAX_SCORED_CHARS + 1);
    assert!(score("a", &fits).is_some());
    assert_eq!(score("a", &too_long), None);
    assert_eq!(score("", &too_long), None);
}

#[test]
fn overlong_pattern_never_matches() {
    let too_long = "a".repeat(MAX_SCORED_CHARS + 1);
    assert_eq!(score(&too_long, &too_long), None);
    assert_eq!(score(&too_long, "a"), None);
}

#[test]
fn length_limit_counts_characters_not_bytes() {
    let name = "é".repeat(MAX_SCORED_CHARS);
    assert!(name.len() > MAX_SCORED_CHARS);
    assert!(score("é", &name).is_some());
}
