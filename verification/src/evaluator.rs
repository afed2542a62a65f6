//! Wordle-style scoring of a guessed word against a secret solution.
//!
//! Each position of the guess receives one of three marks.  A solution
//! letter can back at most one non-`Absent` mark: positions that match
//! exactly consume their letter first, and the remaining instances are
//! handed out to mismatched positions from left to right.

use vstd::prelude::*;

verus! {

/// Per-letter feedback for one position of a guess.
#[derive(Clone, Copy, PartialEq, Eq, Structural, Debug)]
pub enum Mark {
    /// The letter matches the solution at this position.
    Correct,
    /// The letter occurs elsewhere in the solution and is not yet
    /// accounted for by an exact match or an earlier `Present` mark.
    Present,
    /// The letter does not occur, or all its instances are already
    /// accounted for.
    Absent,
}

/// Number of positions `j < n` where the solution holds `c` and the guess
/// does not match the solution there: the instances of `c` left over for
/// `Present` marks after exact matches have consumed theirs.
pub open spec fn avail_upto(guess: Seq<char>, solution: Seq<char>, c: char, n: int) -> int
    decreases n,
{
    if n <= 0 {
        0
    } else {
        avail_upto(guess, solution, c, n - 1) + if solution[n - 1] == c && guess[n - 1]
            != solution[n - 1] {
            1int
        } else {
            0int
        }
    }
}

/// Instances of `c` in the solution not consumed by an exact match.
pub open spec fn avail(guess: Seq<char>, solution: Seq<char>, c: char) -> int {
    avail_upto(guess, solution, c, solution.len() as int)
}

/// Number of positions `k < i` where the guess holds `c` without matching
/// the solution: the earlier mismatched occurrences of `c`, which claim
/// leftover instances before position `i` does.
pub open spec fn prior_upto(guess: Seq<char>, solution: Seq<char>, c: char, i: int) -> int
    decreases i,
{
    if i <= 0 {
        0
    } else {
        prior_upto(guess, solution, c, i - 1) + if guess[i - 1] == c && guess[i - 1] != solution[i
            - 1] {
            1int
        } else {
            0int
        }
    }
}

/// The mark position `i` receives.  A mismatched position is `Present`
/// exactly when the mismatched occurrences of its letter to its left have
/// not yet claimed every leftover instance of that letter: handing the
/// leftover instances out from left to right, position `i` still gets one.
pub open spec fn mark_at(guess: Seq<char>, solution: Seq<char>, i: int) -> Mark {
    if guess[i] == solution[i] {
        Mark::Correct
    } else if prior_upto(guess, solution, guess[i], i) < avail(guess, solution, guess[i]) {
        Mark::Present
    } else {
        Mark::Absent
    }
}

/// The full feedback pattern for a guess, aligned index by index.
pub open spec fn marks_of(guess: Seq<char>, solution: Seq<char>) -> Seq<Mark> {
    Seq::new(guess.len(), |i: int| mark_at(guess, solution, i))
}

/// A pattern that signals a win: every position matched exactly.
pub open spec fn all_correct(marks: Seq<Mark>) -> bool {
    forall|i: int| 0 <= i < marks.len() ==> marks[i] == Mark::Correct
}

/// Counts the positions counted by `avail_upto(_, _, c, n)`.
fn count_avail(guess: &Vec<char>, solution: &Vec<char>, c: char) -> (r: usize)
    requires
        guess.len() == solution.len(),
    ensures
        r == avail(guess@, solution@, c),
{
    let mut n: usize = 0;
    let mut j: usize = 0;
    while j < solution.len()
        invariant
            j <= solution.len(),
            guess.len() == solution.len(),
            n <= j,
            n == avail_upto(guess@, solution@, c, j as int),
        decreases solution.len() - j,
    {
        if solution[j] == c && guess[j] != solution[j] {
            n = n + 1;
        }
        j = j + 1;
    }
    n
}

/// Counts the positions counted by `prior_upto(_, _, c, i)`.
fn count_prior(guess: &Vec<char>, solution: &Vec<char>, c: char, i: usize) -> (r: usize)
    requires
        guess.len() == solution.len(),
        i <= guess.len(),
    ensures
        r == prior_upto(guess@, solution@, c, i as int),
{
    let mut n: usize = 0;
    let mut k: usize = 0;
    while k < i
        invariant
            k <= i,
            i <= guess.len(),
            guess.len() == solution.len(),
            n <= k,
            n == prior_upto(guess@, solution@, c, k as int),
        decreases i - k,
    {
        if guess[k] == c && guess[k] != solution[k] {
            n = n + 1;
        }
        k = k + 1;
    }
    n
}

/// Scores a guess against the solution, two passes in effect: exact
/// matches first, then leftover letter instances handed out from left to
/// right, so a repeated guess letter is credited `Present` at most as many
/// times as the solution has unaccounted instances of it.
pub fn evaluate(guess: &Vec<char>, solution: &Vec<char>) -> (r: Vec<Mark>)
    requires
        guess.len() == solution.len(),
    ensures
        r@ == marks_of(guess@, solution@),
{
    let mut r: Vec<Mark> = Vec::new();
    let mut i: usize = 0;
    while i < guess.len()
        invariant
            i <= guess.len(),
            guess.len() == solution.len(),
            r@.len() == i,
            forall|k: int| 0 <= k < i ==> r@[k] == mark_at(guess@, solution@, k),
        decreases guess.len() - i,
    {
        let c = guess[i];
        let m: Mark = if c == solution[i] {
            Mark::Correct
        } else {
            let p = count_prior(guess, solution, c, i);
            let a = count_avail(guess, solution, c);
            if p < a {
                Mark::Present
            } else {
                Mark::Absent
            }
        };
        r.push(m);
        i = i + 1;
    }
    proof {
        assert(r@ =~= marks_of(guess@, solution@));
    }
    r
}

/// Instances of `c` in the solution among the first `n` positions.
pub open spec fn sol_count_upto(solution: Seq<char>, c: char, n: int) -> int
    decreases n,
{
    if n <= 0 {
        0
    } else {
        sol_count_upto(solution, c, n - 1) + if solution[n - 1] == c {
            1int
        } else {
            0int
        }
    }
}

/// Positions `j < n` where the solution holds `c` and the guess matches it.
pub open spec fn exact_upto(guess: Seq<char>, solution: Seq<char>, c: char, n: int) -> int
    decreases n,
{
    if n <= 0 {
        0
    } else {
        exact_upto(guess, solution, c, n - 1) + if solution[n - 1] == c && guess[n - 1] == solution[
            n - 1] {
            1int
        } else {
            0int
        }
    }
}

/// Positions `i < n` holding `c` in the guess and marked `Present`.
pub open spec fn present_upto(guess: Seq<char>, solution: Seq<char>, c: char, n: int) -> int
    decreases n,
{
    if n <= 0 {
        0
    } else {
        present_upto(guess, solution, c, n - 1) + if guess[n - 1] == c && mark_at(
            guess,
            solution,
            n - 1,
        ) == Mark::Present {
            1int
        } else {
            0int
        }
    }
}

/// Positions `i < n` holding `c` in the guess whose mark is not `Absent`.
pub open spec fn scored_upto(guess: Seq<char>, solution: Seq<char>, c: char, n: int) -> int
    decreases n,
{
    if n <= 0 {
        0
    } else {
        scored_upto(guess, solution, c, n - 1) + if guess[n - 1] == c && mark_at(
            guess,
            solution,
            n - 1,
        ) != Mark::Absent {
            1int
        } else {
            0int
        }
    }
}

proof fn lemma_counts_nonneg(guess: Seq<char>, solution: Seq<char>, c: char, n: int)
    ensures
        avail_upto(guess, solution, c, n) >= 0,
        prior_upto(guess, solution, c, n) >= 0,
    decreases n,
{
    if n > 0 {
        lemma_counts_nonneg(guess, solution, c, n - 1);
    }
}

/// A guess identical to the solution is marked all-`Correct`.
pub proof fn lemma_equal_guess_all_correct(s: Seq<char>)
    ensures
        marks_of(s, s).len() == s.len(),
        all_correct(marks_of(s, s)),
{
    assert forall|i: int| 0 <= i < s.len() implies marks_of(s, s)[i] == Mark::Correct by {
        assert(mark_at(s, s, i) == Mark::Correct);
    }
}

proof fn lemma_avail_zero_of_absent_letter(guess: Seq<char>, solution: Seq<char>, c: char, n: int)
    requires
        forall|j: int| 0 <= j < n ==> solution[j] != c,
    ensures
        avail_upto(guess, solution, c, n) == 0,
    decreases n,
{
    if n > 0 {
        lemma_avail_zero_of_absent_letter(guess, solution, c, n - 1);
    }
}

/// A guess sharing no letter with the solution is marked all-`Absent`.
pub proof fn lemma_disjoint_guess_all_absent(guess: Seq<char>, solution: Seq<char>)
    requires
        guess.len() == solution.len(),
        forall|i: int, j: int|
            0 <= i < guess.len() && 0 <= j < solution.len() ==> guess[i] != solution[j],
    ensures
        marks_of(guess, solution).len() == guess.len(),
        forall|i: int| 0 <= i < guess.len() ==> marks_of(guess, solution)[i] == Mark::Absent,
{
    assert forall|i: int| 0 <= i < guess.len() implies marks_of(guess, solution)[i]
        == Mark::Absent by {
        lemma_avail_zero_of_absent_letter(guess, solution, guess[i], solution.len() as int);
        lemma_counts_nonneg(guess, solution, guess[i], i);
        assert(mark_at(guess, solution, i) == Mark::Absent);
    }
}

proof fn lemma_scored_splits(guess: Seq<char>, solution: Seq<char>, c: char, n: int)
    requires
        n <= guess.len(),
        guess.len() == solution.len(),
    ensures
        scored_upto(guess, solution, c, n) == exact_upto(guess, solution, c, n) + present_upto(
            guess,
            solution,
            c,
            n,
        ),
    decreases n,
{
    if n > 0 {
        lemma_scored_splits(guess, solution, c, n - 1);
    }
}

proof fn lemma_avail_and_exact(guess: Seq<char>, solution: Seq<char>, c: char, n: int)
    ensures
        avail_upto(guess, solution, c, n) + exact_upto(guess, solution, c, n) == sol_count_upto(
            solution,
            c,
            n,
        ),
    decreases n,
{
    if n > 0 {
        lemma_avail_and_exact(guess, solution, c, n - 1);
    }
}

proof fn lemma_present_is_min(guess: Seq<char>, solution: Seq<char>, c: char, n: int)
    requires
        n <= guess.len(),
        guess.len() == solution.len(),
    ensures
        present_upto(guess, solution, c, n) == if prior_upto(guess, solution, c, n) <= avail(
            guess,
            solution,
            c,
        ) {
            prior_upto(guess, solution, c, n)
        } else {
            avail(guess, solution, c)
        },
    decreases n,
{
    lemma_counts_nonneg(guess, solution, c, solution.len() as int);
    if n > 0 {
        lemma_present_is_min(guess, solution, c, n - 1);
    }
}

/// Across the whole guess, the positions holding a letter `c` that receive
/// a non-`Absent` mark never outnumber the instances of `c` in the
/// solution: duplicate letters in the guess are not over-credited.
pub proof fn lemma_no_overcredit(guess: Seq<char>, solution: Seq<char>, c: char)
    requires
        guess.len() == solution.len(),
    ensures
        scored_upto(guess, solution, c, guess.len() as int) <= sol_count_upto(
            solution,
            c,
            solution.len() as int,
        ),
{
    let n = guess.len() as int;
    lemma_scored_splits(guess, solution, c, n);
    lemma_avail_and_exact(guess, solution, c, n);
    lemma_present_is_min(guess, solution, c, n);
    lemma_counts_nonneg(guess, solution, c, n);
}

} // verus!
