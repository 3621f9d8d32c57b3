use wordle_solver::matching::{
    contains_letter, word_matches_requirement, word_matches_requirement_graphemes,
    word_matches_requirements, word_matches_requirements_graphemes,
};
use wordle_solver::requirement::Requirement;

fn green(letter: &str) -> Requirement {
    Requirement::Green(letter.to_string())
}

fn yellow(letter: &str) -> Requirement {
    Requirement::Yellow(letter.to_string())
}

fn black(letter: &str) -> Requirement {
    Requirement::Black(letter.to_string())
}

fn letters(items: &[&str]) -> Vec<String> {
    items.iter().map(|item| item.to_string()).collect()
}

#[test]
fn has_no_blacks() {
    let requirement = [black("c"), black("d"), black("e"), black("f"), black("g")];
    assert!(word_matches_requirements("abbas", &requirement));
    assert!(!word_matches_requirements("caby", &requirement));
    assert!(!word_matches_requirements("decks", &requirement));
}

#[test]
fn yellow_is_in_word_but_not_on_location() {
    assert!(word_matches_requirement("dade", 0, &yellow("a"), &vec![]));
}

#[test]
fn yellow_is_on_location() {
    assert!(!word_matches_requirement("dade", 1, &yellow("a"), &vec![]));
}

#[test]
fn yellow_is_not_in_word() {
    assert!(!word_matches_requirement("dade", 3, &yellow("g"), &vec![]));
}

#[test]
fn green_matches_location() {
    assert!(word_matches_requirement("dade", 0, &green("d"), &vec![]));

    assert!(!word_matches_requirement("dade", 1, &green("d"), &vec![]));
}

#[test]
fn handles_multiple() {
    let requirement = [green("p"), green("l"), yellow("o"), green("t"), black("e")];
    assert!(word_matches_requirements("pluto", &requirement));
    assert!(!word_matches_requirements("plate", &requirement));
}

#[test]
fn black_without_green_forbids_the_letter() {
    assert!(word_matches_requirement("dade", 2, &black("x"), &vec![]));
    assert!(!word_matches_requirement("dade", 2, &black("e"), &vec![]));
    assert!(!word_matches_requirement("dade", 3, &black("e"), &vec![]));
}

#[test]
fn black_is_excused_by_green_at_another_position() {
    let exact = green("p");
    let elsewhere = vec![(0usize, &exact)];
    assert!(word_matches_requirement("puppy", 2, &black("p"), &elsewhere));
    assert!(word_matches_requirement("plate", 2, &black("p"), &elsewhere));
}

#[test]
fn black_is_not_excused_by_green_at_its_own_position() {
    let exact = green("p");
    let same_place = vec![(2usize, &exact)];
    assert!(!word_matches_requirement("puppy", 2, &black("p"), &same_place));
}

#[test]
fn black_is_not_excused_by_green_of_another_letter() {
    let exact = green("u");
    let other = vec![(1usize, &exact)];
    assert!(!word_matches_requirement("puppy", 2, &black("p"), &other));
}

#[test]
fn entries_that_are_not_green_excuse_nothing() {
    let present = yellow("p");
    let absent = black("p");
    let exact = green("p");
    let no_green = vec![(0usize, &present), (1usize, &absent)];
    assert!(!word_matches_requirement("puppy", 2, &black("p"), &no_green));
    let green_last = vec![(0usize, &present), (1usize, &absent), (3usize, &exact)];
    assert!(word_matches_requirement("puppy", 2, &black("p"), &green_last));
}

#[test]
fn green_then_blacks_of_the_same_letter() {
    let requirement = [green("p"), black("p"), black("p"), black("p"), black("p")];
    assert!(word_matches_requirements("plate", &requirement));
    assert!(word_matches_requirements("pinto", &requirement));
    assert!(!word_matches_requirements("apple", &requirement));
    assert!(!word_matches_requirements("cares", &requirement));
}

#[test]
fn blacks_excused_by_a_green_ask_nothing_more() {
    let requirement = [green("p"), black("p"), black("p"), black("p"), black("p")];
    assert!(word_matches_requirements("puppy", &requirement));
    assert!(word_matches_requirements("poppy", &requirement));
}

#[test]
fn green_behind_a_black_is_found() {
    let requirement = [black("e"), yellow("a"), black("r"), black("c"), green("e")];
    assert!(word_matches_requirements("amble", &requirement));
    assert!(word_matches_requirements("elate", &requirement));
    assert!(!word_matches_requirements("bleak", &requirement));
}

#[test]
fn position_beyond_the_word_holds_no_letter() {
    assert!(!word_matches_requirement("dade", 4, &green("e"), &vec![]));
    assert!(word_matches_requirement("dade", 4, &yellow("e"), &vec![]));
    assert!(!word_matches_requirement("dade", 9, &yellow("x"), &vec![]));
    assert!(!word_matches_requirement("", 0, &green("a"), &vec![]));
}

#[test]
fn letters_of_several_code_points_are_compared_whole() {
    assert!(word_matches_requirement("e\u{301}tude", 0, &green("e\u{301}"), &vec![]));
    assert!(!word_matches_requirement("e\u{301}tude", 0, &green("e"), &vec![]));
    assert!(word_matches_requirement("e\u{301}tude", 4, &green("e"), &vec![]));
    assert!(word_matches_requirement("e\u{301}tat", 1, &black("e"), &vec![]));
    assert!(!word_matches_requirement("e\u{301}tat", 1, &black("e\u{301}"), &vec![]));
    assert!(word_matches_requirement("æbler", 1, &yellow("æ"), &vec![]));
}

#[test]
fn matching_on_letters_agrees_with_matching_on_text() {
    let word = letters(&["p", "l", "u", "t", "o"]);
    let requirement = [green("p"), green("l"), yellow("o"), green("t"), black("e")];
    assert!(word_matches_requirements_graphemes(&word, &requirement));
    let other = letters(&["p", "l", "a", "t", "e"]);
    assert!(!word_matches_requirements_graphemes(&other, &requirement));
    assert!(word_matches_requirement_graphemes(&word, 4, &green("o"), &vec![]));
    assert!(!word_matches_requirement_graphemes(&word, 3, &green("o"), &vec![]));
}

#[test]
fn contains_letter_finds_whole_letters_only() {
    let word = letters(&["e\u{301}", "t", "a", "t"]);
    assert!(contains_letter(&word, &"t".to_string()));
    assert!(contains_letter(&word, &"e\u{301}".to_string()));
    assert!(!contains_letter(&word, &"e".to_string()));
    assert!(!contains_letter(&Vec::new(), &"e".to_string()));
}
