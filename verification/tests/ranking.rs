use wordle_solver::order::ranking_order;
use wordle_solver::pool::{create_word_list, retain_matching, scores_will_fit, split_lines};
use wordle_solver::rank::{calc_score_map, calc_score_map_graphemes, sort_list_by_score};
use wordle_solver::requirement::Requirement;

fn words(items: &[&str]) -> Vec<String> {
    items.iter().map(|item| item.to_string()).collect()
}

#[test]
fn scores_every_word_against_the_pool() {
    let pool = words(&["cares", "cotte", "pluto"]);
    assert_eq!(vec![20, 21, 20], calc_score_map(&pool));
    assert_eq!(vec![15], calc_score_map(&words(&["cares"])));
    assert_eq!(Vec::<u32>::new(), calc_score_map(&Vec::new()));
}

#[test]
fn word_that_stands_twice_is_scored_twice() {
    let pool = words(&["cares", "cares", "pluto"]);
    assert_eq!(vec![30, 30, 15], calc_score_map(&pool));
}

#[test]
fn scores_letters_against_the_pool() {
    let pool = vec![
        words(&["c", "a", "r", "e", "s"]),
        words(&["c", "o", "t", "t", "e"]),
        words(&["p", "l", "u", "t", "o"]),
    ];
    assert_eq!(vec![20, 21, 20], calc_score_map_graphemes(&pool));
}

#[test]
fn ranks_by_falling_score() {
    let mut pool = words(&["cares", "cotte", "pluto"]);
    sort_list_by_score(&mut pool);
    assert_eq!(words(&["cotte", "cares", "pluto"]), pool);
}

#[test]
fn equal_scores_keep_their_order() {
    let mut pool = words(&["pluto", "cares"]);
    sort_list_by_score(&mut pool);
    assert_eq!(words(&["pluto", "cares"]), pool);
    let mut pool = words(&["cares", "pluto"]);
    sort_list_by_score(&mut pool);
    assert_eq!(words(&["cares", "pluto"]), pool);
}

#[test]
fn ranking_twice_gives_the_same_order() {
    let mut pool = words(&["pluto", "plate", "cares", "cotte", "æbler", "bears", "abbas"]);
    sort_list_by_score(&mut pool);
    let once = pool.clone();
    sort_list_by_score(&mut pool);
    assert_eq!(once, pool);
}

#[test]
fn ranking_keeps_the_words() {
    let mut pool = words(&["pluto", "plate", "cares", "cotte", "æbler", "bears", "abbas"]);
    let mut before = pool.clone();
    sort_list_by_score(&mut pool);
    let mut after = pool.clone();
    before.sort();
    after.sort();
    assert_eq!(before, after);
    let scores = calc_score_map(&pool);
    for k in 1..scores.len() {
        assert!(scores[k - 1] >= scores[k]);
    }
}

#[test]
fn ranking_of_nothing_is_nothing() {
    let mut pool: Vec<String> = Vec::new();
    sort_list_by_score(&mut pool);
    assert!(pool.is_empty());
}

#[test]
fn orders_positions_by_score() {
    assert_eq!(vec![1, 0, 2], ranking_order(&vec![20, 21, 20]));
    assert_eq!(vec![0, 1, 2, 3], ranking_order(&vec![7, 7, 7, 7]));
    assert_eq!(vec![3, 2, 1, 0], ranking_order(&vec![1, 2, 3, 4]));
    assert_eq!(vec![2, 0, 3, 1, 4], ranking_order(&vec![5, 0, 9, 5, 0]));
    assert_eq!(Vec::<usize>::new(), ranking_order(&Vec::new()));
}

#[test]
fn splits_text_at_line_feeds() {
    assert_eq!(words(&["a", "b", ""]), split_lines("a\nb\n"));
    assert_eq!(words(&["a", "b"]), split_lines("a\nb"));
    assert_eq!(words(&[""]), split_lines(""));
    assert_eq!(words(&["", "", ""]), split_lines("\n\n"));
    assert_eq!(words(&["cares\r", "æbler"]), split_lines("cares\r\næbler"));
}

#[test]
fn word_list_holds_the_lines_of_five_letters() {
    assert_eq!(
        words(&["cares", "pluto", "æbler"]),
        create_word_list("cares\npluto\nabc\næbler\n")
    );
    assert_eq!(words(&["cares"]), create_word_list("cares"));
    assert_eq!(words(&["e\u{301}tude"]), create_word_list("etude\u{301}s\ne\u{301}tude\nétudes"));
    assert_eq!(Vec::<String>::new(), create_word_list(""));
}

#[test]
fn word_list_holds_no_word_twice() {
    assert_eq!(words(&["cares"]), create_word_list("cares\ncares"));
    assert_eq!(
        words(&["pluto", "cares", "æbler"]),
        create_word_list("pluto\ncares\npluto\næbler\ncares\npluto\n")
    );
    assert_eq!(
        words(&["e\u{301}tude", "étude"]),
        create_word_list("e\u{301}tude\nétude\ne\u{301}tude")
    );
}

#[test]
fn narrowing_keeps_the_words_that_match() {
    let mut pool = words(&["pluto", "plate", "cares", "photo", "pinto"]);
    let requirement = [
        Requirement::Green("p".to_string()),
        Requirement::Black("l".to_string()),
        Requirement::Black("u".to_string()),
        Requirement::Green("t".to_string()),
        Requirement::Green("o".to_string()),
    ];
    retain_matching(&mut pool, &requirement);
    assert_eq!(words(&["photo", "pinto"]), pool);
    retain_matching(&mut pool, &requirement);
    assert_eq!(words(&["photo", "pinto"]), pool);
}

#[test]
fn narrowing_can_leave_nothing() {
    let mut pool = words(&["pluto", "plate"]);
    let requirement = [
        Requirement::Green("x".to_string()),
        Requirement::Black("l".to_string()),
        Requirement::Black("u".to_string()),
        Requirement::Black("t".to_string()),
        Requirement::Black("o".to_string()),
    ];
    retain_matching(&mut pool, &requirement);
    assert!(pool.is_empty());
}

#[test]
fn large_pools_of_long_words_are_told() {
    let mut pool = vec![String::new(); 40000];
    pool[7] = "a".repeat(30000);
    assert!(scores_will_fit(&pool));
    pool[7] = "a".repeat(40000);
    assert!(!scores_will_fit(&pool));
    pool[7] = "a".repeat(35791);
    assert!(scores_will_fit(&pool));
    pool[7] = "a".repeat(35792);
    assert!(!scores_will_fit(&pool));
}

#[test]
fn small_pools_have_scores_that_fit() {
    assert!(scores_will_fit(&words(&["pluto", "plate", "cares"])));
    assert!(scores_will_fit(&Vec::new()));
    assert!(scores_will_fit(&words(&["", ""])));
}
