use wordle_bot::evaluator::Mark;
use wordle_bot::session::{GameSession, GameState};

fn word(s: &str) -> Vec<char> {
    s.chars().collect()
}

#[test]
fn new_session_is_in_progress() {
    let s = GameSession::new(word("crane"));
    assert_eq!(s.state, GameState::InProgress);
    assert!(!s.is_over());
    assert!(!s.won());
    assert_eq!(s.attempts_remaining(), 6);
}

#[test]
fn six_misses_lose_and_seventh_call_is_rejected() {
    let mut s = GameSession::new(word("crane"));
    for k in 1..=6 {
        let r = s.guess(&word("moist"));
        assert!(r.is_ok());
        assert_eq!(s.attempts_remaining(), 6 - k);
    }
    assert_eq!(s.state, GameState::Lost);
    assert!(s.is_over());
    assert!(!s.won());
    let seventh = s.guess(&word("crane"));
    assert!(seventh.is_err());
    assert_eq!(s.records.len(), 6);
    assert_eq!(s.state, GameState::Lost);
}

#[test]
fn winning_on_attempt_one_leaves_five_attempts() {
    let mut s = GameSession::new(word("crane"));
    let r = s.guess(&word("crane")).unwrap();
    assert_eq!(r, vec![Mark::Correct; 5]);
    assert_eq!(s.state, GameState::Won);
    assert!(s.won());
    assert!(s.is_over());
    assert_eq!(s.attempts_remaining(), 5);
}

#[test]
fn winning_on_the_last_attempt_leaves_none() {
    let mut s = GameSession::new(word("crane"));
    for _ in 0..5 {
        s.guess(&word("moist")).unwrap();
    }
    assert_eq!(s.state, GameState::InProgress);
    s.guess(&word("crane")).unwrap();
    assert_eq!(s.state, GameState::Won);
    assert_eq!(s.attempts_remaining(), 0);
}

#[test]
fn wrong_length_guess_changes_nothing() {
    let mut s = GameSession::new(word("crane"));
    s.guess(&word("moist")).unwrap();
    let before = s.records.len();
    let r = s.guess(&word("cat"));
    assert!(r.is_err());
    assert_eq!(s.records.len(), before);
    assert_eq!(s.state, GameState::InProgress);
    assert_eq!(s.attempts_remaining(), 5);
}

#[test]
fn records_keep_the_scored_guesses_in_order() {
    let mut s = GameSession::new(word("crane"));
    s.guess(&word("crate")).unwrap();
    s.guess(&word("crane")).unwrap();
    assert_eq!(s.records.len(), 2);
    assert_eq!(s.records[0].word, word("crate"));
    assert_eq!(
        s.records[0].marks,
        vec![Mark::Correct, Mark::Correct, Mark::Correct, Mark::Absent, Mark::Correct]
    );
    assert_eq!(s.records[1].marks, vec![Mark::Correct; 5]);
}
