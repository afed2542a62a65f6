//! One play-through of the guessing game: the solution, the scored
//! guesses so far, and the win/loss state machine.

use vstd::prelude::*;

use crate::evaluator::{all_correct, evaluate, marks_of, Mark};

verus! {

/// Most guesses a session accepts before it is lost.
pub const MAX_ATTEMPTS: usize = 6;

/// Lifecycle of a session.  Illegal combinations (a won session that still
/// accepts guesses) are unrepresentable: only `InProgress` accepts.
#[derive(Clone, Copy, PartialEq, Eq, Structural, Debug)]
pub enum GameState {
    InProgress,
    Won,
    Lost,
}

/// A guess was rejected: wrong length, or the session is already over.
/// The rejected text never becomes a record and costs no attempt.
#[derive(Clone, Copy, PartialEq, Eq, Structural, Debug)]
pub struct InvalidGuess;

/// One accepted guess together with its feedback pattern.
pub struct GuessRecord {
    pub word: Vec<char>,
    pub marks: Vec<Mark>,
}

/// A session: solution, ordered scored guesses, and current state.
pub struct GameSession {
    pub solution: Vec<char>,
    pub records: Vec<GuessRecord>,
    pub state: GameState,
}

impl GameSession {
    /// Internal consistency: every record is a scored guess of the right
    /// length, the state mirrors the records, and nothing was accepted
    /// after a win.
    pub open spec fn wf(self) -> bool {
        &&& self.records@.len() <= MAX_ATTEMPTS
        &&& forall|i: int|
            0 <= i < self.records@.len() ==> {
                &&& (#[trigger] self.records@[i]).word@.len() == self.solution@.len()
                &&& self.records@[i].marks@ == marks_of(self.records@[i].word@, self.solution@)
            }
        &&& forall|i: int|
            0 <= i < self.records@.len() - 1 ==> !all_correct((#[trigger] self.records@[i]).marks@)
        &&& (self.state == GameState::Won <==> self.records@.len() > 0 && all_correct(
            self.records@.last().marks@,
        ))
        &&& (self.state == GameState::Lost <==> self.records@.len() == MAX_ATTEMPTS && !(
        self.records@.len() > 0 && all_correct(self.records@.last().marks@)))
    }

    /// Starts a session on the given solution with no guesses yet.
    pub fn new(solution: Vec<char>) -> (s: GameSession)
        ensures
            s.wf(),
            s.solution@ == solution@,
            s.records@.len() == 0,
            s.state == GameState::InProgress,
    {
        GameSession { solution, records: Vec::new(), state: GameState::InProgress }
    }

    /// Guesses left before the session runs out of attempts.
    pub fn attempts_remaining(&self) -> (r: usize)
        requires
            self.wf(),
        ensures
            r == MAX_ATTEMPTS - self.records@.len(),
    {
        MAX_ATTEMPTS - self.records.len()
    }

    /// The session no longer accepts guesses.
    pub fn is_over(&self) -> (r: bool)
        ensures
            r == (self.state != GameState::InProgress),
    {
        self.state != GameState::InProgress
    }

    /// The session ended with the solution found.
    pub fn won(&self) -> (r: bool)
        ensures
            r == (self.state == GameState::Won),
    {
        self.state == GameState::Won
    }

    /// Scores one guess.  Rejects it without any change when the session
    /// is over or the length is wrong; otherwise appends the record and
    /// moves to `Won` on an all-`Correct` pattern, to `Lost` when the last
    /// attempt was spent, and stays `InProgress` otherwise.
    pub fn guess(&mut self, word: &Vec<char>) -> (r: Result<Vec<Mark>, InvalidGuess>)
        requires
            old(self).wf(),
        ensures
            final(self).wf(),
            final(self).solution@ == old(self).solution@,
            r is Err <==> (old(self).state != GameState::InProgress || word@.len() != old(
                self,
            ).solution@.len()),
            r is Err ==> *final(self) == *old(self),
            r is Ok ==> {
                &&& r->Ok_0@ == marks_of(word@, old(self).solution@)
                &&& final(self).records@.len() == old(self).records@.len() + 1
                &&& forall|i: int|
                    0 <= i < old(self).records@.len() ==> final(self).records@[i] == old(
                        self,
                    ).records@[i]
                &&& final(self).records@.last().word@ == word@
                &&& final(self).records@.last().marks@ == marks_of(word@, old(self).solution@)
                &&& (final(self).state == GameState::Won <==> all_correct(
                    marks_of(word@, old(self).solution@),
                ))
                &&& (final(self).state == GameState::Lost <==> !all_correct(
                    marks_of(word@, old(self).solution@),
                ) && final(self).records@.len() == MAX_ATTEMPTS)
            },
    {
        if self.state != GameState::InProgress {
            return Err(InvalidGuess);
        }
        if word.len() != self.solution.len() {
            return Err(InvalidGuess);
        }
        let marks = evaluate(word, &self.solution);
        let won = pattern_wins(&marks);
        let record = GuessRecord { word: copy_word(word), marks: copy_marks(&marks) };
        proof {
            // An in-progress session has room for one more record: at the
            // maximum, the last record decides the state either way.
            if self.records@.len() == MAX_ATTEMPTS {
                assert(self.state == GameState::Won || self.state == GameState::Lost);
            }
        }
        self.records.push(record);
        if won {
            self.state = GameState::Won;
        } else if self.records.len() == MAX_ATTEMPTS {
            self.state = GameState::Lost;
        }
        Ok(marks)
    }
}

/// True exactly when every mark of the pattern is `Correct`.
pub fn pattern_wins(marks: &Vec<Mark>) -> (r: bool)
    ensures
        r == all_correct(marks@),
{
    let mut i: usize = 0;
    while i < marks.len()
        invariant
            i <= marks.len(),
            forall|k: int| 0 <= k < i ==> marks@[k] == Mark::Correct,
        decreases marks.len() - i,
    {
        if marks[i] != Mark::Correct {
            return false;
        }
        i = i + 1;
    }
    true
}

fn copy_word(word: &Vec<char>) -> (r: Vec<char>)
    ensures
        r@ == word@,
{
    let mut r: Vec<char> = Vec::new();
    let mut i: usize = 0;
    while i < word.len()
        invariant
            i <= word.len(),
            r@ =~= word@.take(i as int),
        decreases word.len() - i,
    {
        r.push(word[i]);
        i = i + 1;
    }
    proof {
        assert(r@ =~= word@);
    }
    r
}

fn copy_marks(marks: &Vec<Mark>) -> (r: Vec<Mark>)
    ensures
        r@ == marks@,
{
    let mut r: Vec<Mark> = Vec::new();
    let mut i: usize = 0;
    while i < marks.len()
        invariant
            i <= marks.len(),
            r@ =~= marks@.take(i as int),
        decreases marks.len() - i,
    {
        r.push(marks[i]);
        i = i + 1;
    }
    proof {
        assert(r@ =~= marks@);
    }
    r
}

/// After the sixth scored guess without a win, the session is `Lost` (and
/// by `guess`'s contract every later call is rejected unchanged).
pub proof fn lemma_six_misses_lose(s: GameSession)
    requires
        s.wf(),
        s.records@.len() == MAX_ATTEMPTS,
        !all_correct(s.records@.last().marks@),
    ensures
        s.state == GameState::Lost,
{
}

} // verus!
