use wordle_bot::evaluator::{evaluate, Mark};

fn word(s: &str) -> Vec<char> {
    s.chars().collect()
}

#[test]
fn equal_guess_is_all_correct() {
    let marks = evaluate(&word("crane"), &word("crane"));
    assert_eq!(marks, vec![Mark::Correct; 5]);
}

#[test]
fn disjoint_guess_is_all_absent() {
    let marks = evaluate(&word("moist"), &word("crane"));
    assert_eq!(marks, vec![Mark::Absent; 5]);
}

#[test]
fn duplicate_letters_are_not_overcredited() {
    // Solution ABBEY holds two Bs; the guess BABES holds two Bs as well.
    // One B matches exactly, the other is present elsewhere: exactly two
    // Bs in the guess are accounted for, none beyond the solution's two.
    let marks = evaluate(&word("BABES"), &word("ABBEY"));
    assert_eq!(
        marks,
        vec![Mark::Present, Mark::Present, Mark::Correct, Mark::Correct, Mark::Absent]
    );
    let guess = word("BABES");
    let scored_bs = guess
        .iter()
        .zip(marks.iter())
        .filter(|(c, m)| **c == 'B' && **m != Mark::Absent)
        .count();
    assert!(scored_bs <= 2);
    assert_eq!(scored_bs, 2);
}

#[test]
fn repeated_guess_letter_consumed_by_exact_match() {
    // The solution holds a single A, consumed by the exact match at the
    // first position; the second A of the guess must be Absent.
    let marks = evaluate(&word("AAXYZ"), &word("ABCDE"));
    assert_eq!(
        marks,
        vec![Mark::Correct, Mark::Absent, Mark::Absent, Mark::Absent, Mark::Absent]
    );
}

#[test]
fn present_marks_stop_when_instances_run_out() {
    // Solution ABBEY against guess BBBAA: both Bs of the solution are
    // consumed by the exact matches, so the leading B of the guess is
    // Absent; the solution's single A serves the first mismatched A and
    // the second goes empty-handed.
    let marks = evaluate(&word("BBBAA"), &word("ABBEY"));
    assert_eq!(
        marks,
        vec![Mark::Absent, Mark::Correct, Mark::Correct, Mark::Present, Mark::Absent]
    );
}
