use wordle_solver::letters::{has_doubles, has_doubles_graphemes};
use wordle_solver::requirement::Requirement;
use wordle_solver::score::{
    calculate_score, calculate_score_graphemes, char_requirement_graphemes,
};

fn letters(items: &[&str]) -> Vec<String> {
    items.iter().map(|item| item.to_string()).collect()
}

#[test]
fn can_calculate_score() {
    let score = calculate_score("cares", "cotte");
    assert_eq!(5, score);

    let score = calculate_score("pluto", "cares");
    assert_eq!(0, score);

    let score = calculate_score("æbler", "cares");
    assert_eq!(5, score);

    let score = calculate_score("æbler", "æbler");
    assert_eq!(15, score);
}

#[test]
fn word_against_itself_scores_three_per_letter() {
    assert_eq!(15, calculate_score("pluto", "pluto"));
    assert_eq!(15, calculate_score("cares", "cares"));
    assert_eq!(15, calculate_score("abbas", "abbas"));
    assert_eq!(12, calculate_score("dade", "dade"));
    assert_eq!(0, calculate_score("", ""));
}

#[test]
fn score_is_not_symmetric() {
    assert_eq!(3, calculate_score("abbas", "bears"));
    assert_eq!(7, calculate_score("bears", "abbas"));
}

#[test]
fn repeated_letter_earns_nothing_for_present_letters() {
    assert_eq!(11, calculate_score("bears", "sabre"));
    assert_eq!(3, calculate_score("eerie", "bears"));
    assert_eq!(3, calculate_score("cotte", "cares"));
}

#[test]
fn exact_letter_counts_where_target_repeats_it() {
    assert_eq!(4, calculate_score("plate", "otter"));
    assert_eq!(5, calculate_score("untie", "otter"));
}

#[test]
fn score_counts_letters_not_code_points() {
    assert_eq!(15, calculate_score("e\u{301}tude", "e\u{301}tude"));
    assert_eq!(13, calculate_score("e\u{301}tude", "etude\u{301}"));
    assert_eq!(0, calculate_score("e\u{301}", "e"));
}

#[test]
fn score_on_letters_is_exact() {
    let word = letters(&["c", "a", "r", "e", "s"]);
    let target = letters(&["c", "o", "t", "t", "e"]);
    assert_eq!(5, calculate_score_graphemes(&word, &target));
    assert_eq!(3, calculate_score_graphemes(&target, &word));
    let short = letters(&["e", "c"]);
    assert_eq!(4, calculate_score_graphemes(&short, &word));
    assert_eq!(0, calculate_score_graphemes(&Vec::new(), &word));
}

#[test]
fn report_on_one_letter() {
    let target = letters(&["c", "o", "t", "t", "e"]);
    let t = "t".to_string();
    assert_eq!(Requirement::Green(t.clone()), char_requirement_graphemes(2, &t, &target));
    assert_eq!(Requirement::Green(t.clone()), char_requirement_graphemes(3, &t, &target));
    assert_eq!(Requirement::Yellow(t.clone()), char_requirement_graphemes(0, &t, &target));
    assert_eq!(Requirement::Yellow(t.clone()), char_requirement_graphemes(7, &t, &target));
    let x = "x".to_string();
    assert_eq!(Requirement::Black(x.clone()), char_requirement_graphemes(0, &x, &target));
}

#[test]
fn finds_doubles() {
    assert!(has_doubles("abbas"));
    assert!(has_doubles("cotte"));
    assert!(has_doubles("stats"));
    assert!(!has_doubles("cares"));
    assert!(!has_doubles("æbler"));
    assert!(!has_doubles(""));
    assert!(!has_doubles("a"));
    assert!(has_doubles("abcdefa"));
}

#[test]
fn doubles_are_whole_letters() {
    assert!(!has_doubles("ee\u{301}abc"));
    assert!(has_doubles("e\u{301}abce\u{301}"));
    assert!(!has_doubles("\r\n\r"));
}

#[test]
fn finds_doubles_among_letters() {
    assert!(has_doubles_graphemes(&letters(&["a", "b", "b", "a", "s"])));
    assert!(!has_doubles_graphemes(&letters(&["c", "a", "r", "e", "s"])));
    assert!(!has_doubles_graphemes(&letters(&["e", "e\u{301}"])));
    assert!(!has_doubles_graphemes(&Vec::new()));
}
