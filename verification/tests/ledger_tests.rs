use wordle_bot::ledger::{DatabaseError, TokenLedger, MAX_STORE_INT};

#[test]
fn credits_accumulate() {
    let mut l = TokenLedger::new();
    l.add_tokens(7, 10).unwrap();
    l.add_tokens(7, 5).unwrap();
    assert_eq!(l.get_tokens(7).unwrap(), 15);
}

#[test]
fn balance_without_any_row_is_zero() {
    let l = TokenLedger::new();
    assert_eq!(l.get_tokens(42).unwrap(), 0);
}

#[test]
fn repeated_credits_never_lose_an_update() {
    // Five independent credits of the same amount sum exactly.
    let mut l = TokenLedger::new();
    for _ in 0..5 {
        l.add_tokens(3, 7).unwrap();
    }
    assert_eq!(l.get_tokens(3).unwrap(), 35);
}

#[test]
fn debit_beyond_the_balance_fails_and_changes_nothing() {
    let mut l = TokenLedger::new();
    l.add_tokens(1, 5).unwrap();
    let r = l.remove_tokens(1, 10);
    assert_eq!(r, Err(DatabaseError::InsufficentTokens));
    assert_eq!(l.get_tokens(1).unwrap(), 5);
}

#[test]
fn debit_without_a_row_fails() {
    let mut l = TokenLedger::new();
    let r = l.remove_tokens(9, 0);
    assert_eq!(r, Err(DatabaseError::InsufficentTokens));
    assert_eq!(l.get_tokens(9).unwrap(), 0);
}

#[test]
fn debit_within_the_balance_succeeds() {
    let mut l = TokenLedger::new();
    l.add_tokens(2, 10).unwrap();
    l.remove_tokens(2, 4).unwrap();
    assert_eq!(l.get_tokens(2).unwrap(), 6);
    l.remove_tokens(2, 6).unwrap();
    assert_eq!(l.get_tokens(2).unwrap(), 0);
}

#[test]
fn oversized_identifier_is_a_conversion_error() {
    let mut l = TokenLedger::new();
    let big = MAX_STORE_INT + 1;
    assert_eq!(l.add_tokens(big, 1), Err(DatabaseError::IntError));
    assert_eq!(l.get_tokens(big), Err(DatabaseError::IntError));
    assert_eq!(l.remove_tokens(big, 1), Err(DatabaseError::IntError));
    assert_eq!(l.entries.len(), 0);
}

#[test]
fn oversized_amount_is_a_conversion_error() {
    let mut l = TokenLedger::new();
    assert_eq!(l.add_tokens(1, MAX_STORE_INT + 1), Err(DatabaseError::IntError));
    assert_eq!(l.get_tokens(1).unwrap(), 0);
}

#[test]
fn overflowing_balance_is_a_conversion_error() {
    let mut l = TokenLedger::new();
    l.add_tokens(1, MAX_STORE_INT).unwrap();
    assert_eq!(l.add_tokens(1, 1), Err(DatabaseError::IntError));
    assert_eq!(l.get_tokens(1).unwrap(), MAX_STORE_INT);
}

#[test]
fn leaderboard_returns_at_most_ten_rows_sorted_descending() {
    let mut l = TokenLedger::new();
    for u in 0..12u64 {
        l.add_tokens(u, u * 10).unwrap();
    }
    let top = l.list_leadboard().unwrap();
    assert_eq!(top.len(), 10);
    let expected: Vec<(u64, u64)> = (2..12u64).rev().map(|u| (u, u * 10)).collect();
    assert_eq!(top, expected);
    for w in top.windows(2) {
        assert!(w[0].1 >= w[1].1);
    }
}

#[test]
fn leaderboard_breaks_ties_by_identifier() {
    let mut l = TokenLedger::new();
    l.add_tokens(5, 20).unwrap();
    l.add_tokens(3, 20).unwrap();
    l.add_tokens(8, 50).unwrap();
    let top = l.list_leadboard().unwrap();
    assert_eq!(top, vec![(8, 50), (3, 20), (5, 20)]);
}

#[test]
fn error_messages_name_the_failure() {
    assert_eq!(DatabaseError::InsufficentTokens.message(), "InsufficentTokens");
    assert_eq!(DatabaseError::IntError.message(), "IntError");
}
