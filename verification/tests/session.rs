use wordle_solver::pool::create_word_list;
use wordle_solver::requirement::ParseError;
use wordle_solver::session::{Reply, Session};

fn words(items: &[&str]) -> Vec<String> {
    items.iter().map(|item| item.to_string()).collect()
}

fn started() -> Session {
    let pool = create_word_list("pluto\nplate\ncares\nphoto\npinto\ncotte\n");
    Session::new(pool).unwrap()
}

#[test]
fn session_starts_with_the_whole_list() {
    let session = started();
    assert!(!session.awaits_feedback());
    assert_eq!(
        &words(&["pluto", "plate", "cares", "photo", "pinto", "cotte"]),
        session.candidates()
    );
}

#[test]
fn round_narrows_and_ranks_the_pool() {
    let mut session = started();
    assert_eq!(Reply::AskFeedback, session.feed_line("pluto"));
    assert!(session.awaits_feedback());
    assert_eq!(Reply::Narrowed, session.feed_line("gbbgg"));
    assert!(!session.awaits_feedback());
    assert_eq!(&words(&["photo", "pinto"]), session.candidates());
}

#[test]
fn rounds_add_up() {
    let mut session = started();
    assert_eq!(Reply::AskFeedback, session.feed_line("cares"));
    assert_eq!(Reply::Narrowed, session.feed_line("bbbbb"));
    assert_eq!(&words(&["pluto", "photo", "pinto"]), session.candidates());
    assert_eq!(Reply::AskFeedback, session.feed_line("pluto"));
    assert_eq!(Reply::Narrowed, session.feed_line("gbbgg"));
    assert_eq!(&words(&["photo", "pinto"]), session.candidates());
}

#[test]
fn guess_of_wrong_length_is_not_taken() {
    let mut session = started();
    assert_eq!(Reply::Rejected(ParseError::WrongLength), session.feed_line("plut"));
    assert!(!session.awaits_feedback());
    assert_eq!(Reply::Rejected(ParseError::WrongLength), session.feed_line(""));
    assert_eq!(6, session.candidates().len());
    assert_eq!(Reply::AskFeedback, session.feed_line("æbler"));
}

#[test]
fn bad_feedback_leaves_the_pool_untouched() {
    let mut session = started();
    let before = session.candidates().clone();
    assert_eq!(Reply::AskFeedback, session.feed_line("pluto"));
    assert_eq!(Reply::Rejected(ParseError::WrongLength), session.feed_line("gbbg"));
    assert!(!session.awaits_feedback());
    assert_eq!(&before, session.candidates());
    assert_eq!(Reply::AskFeedback, session.feed_line("pluto"));
    assert_eq!(Reply::Rejected(ParseError::UnknownSymbol), session.feed_line("gbxgg"));
    assert!(!session.awaits_feedback());
    assert_eq!(&before, session.candidates());
}

#[test]
fn pool_can_run_empty() {
    let mut session = started();
    assert_eq!(Reply::AskFeedback, session.feed_line("zzzzz"));
    assert_eq!(Reply::Narrowed, session.feed_line("ggggg"));
    assert!(session.candidates().is_empty());
    assert_eq!(Reply::AskFeedback, session.feed_line("pluto"));
    assert_eq!(Reply::Narrowed, session.feed_line("ggggg"));
    assert!(session.candidates().is_empty());
}

#[test]
fn no_session_on_a_pool_too_large_to_score() {
    let mut pool = vec![String::new(); 40000];
    pool[0] = "a".repeat(40000);
    assert!(Session::new(pool).is_none());
    assert!(Session::new(Vec::new()).is_some());
}
