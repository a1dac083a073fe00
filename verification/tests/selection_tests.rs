use easy_project_finder::selection::decide;
use easy_project_finder::selection::resolve_selection;
use easy_project_finder::selection::Decision;
use easy_project_finder::selection::InvalidSelection;

#[test]
fn single_match_is_emitted_without_prompt() {
    assert_eq!(decide(1, false), Decision::Emit(0));
    assert_eq!(decide(1, true), Decision::Emit(0));
}

#[test]
fn several_matches_without_selection_emit_the_best() {
    assert_eq!(decide(2, false), Decision::Emit(0));
    assert_eq!(decide(5, false), Decision::Emit(0));
}

#[test]
fn several_matches_with_selection_prompt() {
    assert_eq!(decide(2, true), Decision::Prompt(2));
    assert_eq!(decide(3, true), Decision::Prompt(3));
}

#[test]
fn no_match_is_reported() {
    assert_eq!(decide(0, false), Decision::NoMatch);
    assert_eq!(decide(0, true), Decision::NoMatch);
}

#[test]
fn answer_two_of_three_selects_the_second() {
    assert_eq!(resolve_selection("2", 3), Ok(1));
}

#[test]
fn answer_beyond_the_offer_is_out_of_range() {
    assert_eq!(resolve_selection("9", 3), Err(InvalidSelection::OutOfRange));
    assert_eq!(resolve_selection("4", 3), Err(InvalidSelection::OutOfRange));
    assert_eq!(resolve_selection("0", 3), Err(InvalidSelection::OutOfRange));
}

#[test]
fn answer_that_is_no_number_is_rejected() {
    assert_eq!(resolve_selection("x", 3), Err(InvalidSelection::NotANumber));
    assert_eq!(resolve_selection("", 3), Err(InvalidSelection::NotANumber));
    assert_eq!(resolve_selection("   ", 3), Err(InvalidSelection::NotANumber));
    assert_eq!(resolve_selection("2x", 3), Err(InvalidSelection::NotANumber));
    assert_eq!(resolve_selection("1 2", 3), Err(InvalidSelection::NotANumber));
    assert_eq!(resolve_selection("-1", 3), Err(InvalidSelection::NotANumber));
    assert_eq!(resolve_selection("+", 3), Err(InvalidSelection::NotANumber));
    assert_eq!(resolve_selection("++1", 3), Err(InvalidSelection::NotANumber));
    assert_eq!(resolve_selection("1.0", 3), Err(InvalidSelection::NotANumber));
    assert_eq!(resolve_selection("٢", 3), Err(InvalidSelection::NotANumber));
}

#[test]
fn first_and_last_offer_are_selectable() {
    assert_eq!(resolve_selection("1", 3), Ok(0));
    assert_eq!(resolve_selection("3", 3), Ok(2));
}

#[test]
fn whitespace_around_the_answer_is_ignored() {
    assert_eq!(resolve_selection("2\n", 3), Ok(1));
    assert_eq!(resolve_selection("  2 \r\n", 3), Ok(1));
    assert_eq!(resolve_selection("\t3", 3), Ok(2));
    assert_eq!(resolve_selection("\u{a0}1\u{3000}", 3), Ok(0));
}

#[test]
fn plus_sign_and_leading_zeros_are_accepted() {
    assert_eq!(resolve_selection("+2", 3), Ok(1));
    assert_eq!(resolve_selection("002", 3), Ok(1));
    assert_eq!(resolve_selection("+0", 3), Err(InvalidSelection::OutOfRange));
}

#[test]
fn huge_number_is_out_of_range() {
    assert_eq!(
        resolve_selection("340282366920938463463374607431768211456000", 3),
        Err(InvalidSelection::OutOfRange)
    );
    assert_eq!(
        resolve_selection("18446744073709551616", usize::MAX),
        Err(InvalidSelection::OutOfRange)
    );
}

#[test]
fn huge_number_with_trailing_garbage_is_no_number() {
    assert_eq!(
        resolve_selection("99999999999999999999999999999999999999999x", 3),
        Err(InvalidSelection::NotANumber)
    );
}

#[test]
fn largest_offer_is_selectable() {
    let answer = usize::MAX.to_string();
    assert_eq!(resolve_selection(&answer, usize::MAX), Ok(usize::MAX - 1));
}

#[test]
fn nothing_is_selectable_when_nothing_is_offered() {
    assert_eq!(resolve_selection("1", 0), Err(InvalidSelection::OutOfRange));
}
