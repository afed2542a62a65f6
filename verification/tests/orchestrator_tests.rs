use wordle_bot::evaluator::Mark;
use wordle_bot::ledger::TokenLedger;
use wordle_bot::orchestrator::{
    award_win, choose_word, compute_reward, parse_word_list, session_step, SessionEvent,
    StepResult,
};
use wordle_bot::session::{GameSession, GameState};

fn word(s: &str) -> Vec<char> {
    s.chars().collect()
}

#[test]
fn reward_grows_with_unused_attempts() {
    // Winning on attempt k leaves 6 - k attempts: k = 1 pays 30, k = 6 pays 5.
    assert_eq!(compute_reward(5), 30);
    assert_eq!(compute_reward(4), 25);
    assert_eq!(compute_reward(0), 5);
}

#[test]
fn timeout_aborts_without_counting_an_attempt() {
    let mut s = GameSession::new(word("crane"));
    let r = session_step(&mut s, SessionEvent::TimedOut);
    assert!(matches!(r, StepResult::Aborted));
    assert_eq!(s.records.len(), 0);
    assert_eq!(s.state, GameState::InProgress);
}

#[test]
fn invalid_guess_is_rejected_without_an_attempt() {
    let mut s = GameSession::new(word("crane"));
    let r = session_step(&mut s, SessionEvent::Message(word("hi")));
    assert!(matches!(r, StepResult::Rejected));
    assert_eq!(s.records.len(), 0);
    assert_eq!(s.state, GameState::InProgress);
}

#[test]
fn winning_step_names_the_attempt_and_the_reward() {
    let mut s = GameSession::new(word("crane"));
    let r = session_step(&mut s, SessionEvent::Message(word("moist")));
    assert!(matches!(r, StepResult::Continue(_)));
    let r = session_step(&mut s, SessionEvent::Message(word("crane")));
    match r {
        StepResult::Won { attempt, reward, marks } => {
            assert_eq!(attempt, 2);
            assert_eq!(reward, 25);
            assert_eq!(marks, vec![Mark::Correct; 5]);
        }
        _ => panic!("expected a win"),
    }
    assert_eq!(s.state, GameState::Won);
}

#[test]
fn sixth_miss_ends_the_game_lost() {
    let mut s = GameSession::new(word("crane"));
    for _ in 0..5 {
        let r = session_step(&mut s, SessionEvent::Message(word("moist")));
        assert!(matches!(r, StepResult::Continue(_)));
    }
    let r = session_step(&mut s, SessionEvent::Message(word("moist")));
    assert!(matches!(r, StepResult::Lost { .. }));
    assert_eq!(s.state, GameState::Lost);
}

#[test]
fn award_win_credits_the_reward() {
    let mut s = GameSession::new(word("crane"));
    session_step(&mut s, SessionEvent::Message(word("crane")));
    let mut l = TokenLedger::new();
    l.add_tokens(11, 3).unwrap();
    let r = award_win(&mut l, 11, &s).unwrap();
    assert_eq!(r, 30);
    assert_eq!(l.get_tokens(11).unwrap(), 33);
}

#[test]
fn word_list_parses_one_word_per_line() {
    let text: Vec<char> = "crane\nmoist\n\ngravy".chars().collect();
    let words = parse_word_list(&text);
    assert_eq!(words, vec![word("crane"), word("moist"), word("gravy")]);
}

#[test]
fn word_list_trailing_newline_adds_no_word() {
    let text: Vec<char> = "abbey\n".chars().collect();
    assert_eq!(parse_word_list(&text), vec![word("abbey")]);
    let empty: Vec<char> = Vec::new();
    assert!(parse_word_list(&empty).is_empty());
}

#[test]
fn chosen_word_comes_from_the_list() {
    let words: Vec<Vec<char>> = vec![word("crane"), word("moist"), word("gravy")];
    for _ in 0..20 {
        let w = choose_word(&words);
        assert!(words.contains(&w));
    }
}
