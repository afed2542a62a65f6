//! Drives one session against an abstract message channel.  The caller
//! owns the waiting: it prompts, waits for the next inbound message with
//! its timeout, and hands the outcome here as an event.  Everything that
//! is decided — scoring, state transitions, the reward and its credit —
//! happens in these functions.

use vstd::prelude::*;

use rand::Rng;

use crate::evaluator::{all_correct, marks_of, Mark};
use crate::ledger::{DatabaseError, TokenLedger, MAX_STORE_INT};
use crate::session::{GameSession, GameState, MAX_ATTEMPTS};

verus! {

/// What the wait for the next inbound message produced.
pub enum SessionEvent {
    /// The initiating user sent this text (as characters).
    Message(Vec<char>),
    /// The wait timed out: the session is abandoned outright.
    TimedOut,
}

/// What one protocol round decided.
pub enum StepResult {
    /// The guess was scored and the game goes on.
    Continue(Vec<Mark>),
    /// The guess was invalid; no attempt was consumed.
    Rejected,
    /// The wait timed out: a hard abort, never a counted loss and never a
    /// reward.
    Aborted,
    /// The guess won the game on this attempt; the reward is owed.
    Won { attempt: usize, reward: u64, marks: Vec<Mark> },
    /// The guess spent the last attempt without winning.
    Lost { marks: Vec<Mark> },
}

/// Tokens owed for a win that left this many attempts unused: a faster
/// win pays more.
pub open spec fn reward_for(attempts_left: int) -> int {
    attempts_left * 5 + 5
}

/// Computes the reward for a win with `attempts_left` attempts unused.
pub fn compute_reward(attempts_left: usize) -> (r: u64)
    requires
        attempts_left <= MAX_ATTEMPTS,
    ensures
        r == reward_for(attempts_left as int),
{
    (attempts_left as u64) * 5 + 5
}

/// Feeds one event of the wait loop to the session.  A timeout aborts
/// untouched; a message is scored by the session, and the result says
/// whether to keep looping, what feedback to emit, and — on a win — the
/// attempt number and the reward owed.
pub fn session_step(session: &mut GameSession, event: SessionEvent) -> (r: StepResult)
    requires
        old(session).wf(),
        old(session).state == GameState::InProgress,
    ensures
        final(session).wf(),
        final(session).solution@ == old(session).solution@,
        event is TimedOut ==> r is Aborted && *final(session) == *old(session),
        event matches SessionEvent::Message(w) ==> {
            &&& (w@.len() != old(session).solution@.len() ==> r is Rejected && *final(session)
                == *old(session))
            &&& (w@.len() == old(session).solution@.len() ==> {
                let marks = marks_of(w@, old(session).solution@);
                &&& final(session).records@.len() == old(session).records@.len() + 1
                &&& final(session).records@.last().word@ == w@
                &&& final(session).records@.last().marks@ == marks
                &&& (r is Won <==> all_correct(marks))
                &&& (r is Lost <==> !all_correct(marks) && final(session).records@.len()
                    == MAX_ATTEMPTS)
                &&& (r is Continue <==> !all_correct(marks) && final(session).records@.len()
                    < MAX_ATTEMPTS)
                &&& (r matches StepResult::Won { attempt, reward, marks: won_marks } ==> attempt
                    == final(session).records@.len() && reward == reward_for(
                    MAX_ATTEMPTS - final(session).records@.len(),
                ) && won_marks@ == marks)
                &&& (r matches StepResult::Lost { marks: lost_marks } ==> lost_marks@ == marks)
                &&& (r matches StepResult::Continue(go_marks) ==> go_marks@ == marks)
                &&& (final(session).state == GameState::Won <==> all_correct(marks))
            })
        },
{
    match event {
        SessionEvent::TimedOut => StepResult::Aborted,
        SessionEvent::Message(w) => {
            match session.guess(&w) {
                Err(_) => StepResult::Rejected,
                Ok(marks) => {
                    if session.won() {
                        let left = session.attempts_remaining();
                        let reward = compute_reward(left);
                        let attempt = MAX_ATTEMPTS - left;
                        StepResult::Won { attempt, reward, marks }
                    } else if session.is_over() {
                        StepResult::Lost { marks }
                    } else {
                        StepResult::Continue(marks)
                    }
                },
            }
        },
    }
}

/// Settles a won session: computes the reward from the unused attempts
/// and credits it to the winner's ledger row.  A ledger failure leaves
/// the game result standing; the error is surfaced to the caller.
pub fn award_win(ledger: &mut TokenLedger, user: u64, session: &GameSession) -> (r: Result<
    u64,
    DatabaseError,
>)
    requires
        old(ledger).wf(),
        session.wf(),
        session.state == GameState::Won,
    ensures
        final(ledger).wf(),
        r is Err ==> *final(ledger) == *old(ledger) && r->Err_0 == DatabaseError::IntError,
        r is Ok <==> (user <= MAX_STORE_INT && old(ledger).balance_of(user) + reward_for(
            MAX_ATTEMPTS - session.records@.len(),
        ) <= MAX_STORE_INT),
        r is Ok ==> {
            &&& r->Ok_0 == reward_for(MAX_ATTEMPTS - session.records@.len())
            &&& final(ledger).balance_of(user) == old(ledger).balance_of(user) + r->Ok_0
            &&& forall|v: u64| v != user ==> final(ledger).balance_of(v) == old(
                ledger).balance_of(v)
        },
{
    let left = session.attempts_remaining();
    let reward = compute_reward(left);
    match ledger.add_tokens(user, reward) {
        Ok(()) => Ok(reward),
        Err(e) => Err(e),
    }
}

/// A session won on attempt `k` has `6 - k` attempts unused, so the
/// reward it earns is `(6 - k) * 5 + 5`: 30 tokens for a win on the first
/// guess, down to 5 for a win on the last.
pub proof fn lemma_win_reward(s: GameSession, k: int)
    requires
        s.wf(),
        s.state == GameState::Won,
        s.records@.len() == k,
    ensures
        MAX_ATTEMPTS - k >= 0,
        reward_for(MAX_ATTEMPTS - k) == (6 - k) * 5 + 5,
{
}

/// Splits word-list text on newlines with `cur` the fragment of the
/// current line already read: the words are the maximal nonempty runs of
/// characters between newlines, so blank lines carry no word.
pub open spec fn split_lines(s: Seq<char>, cur: Seq<char>) -> Seq<Seq<char>>
    decreases s.len(),
{
    if s.len() == 0 {
        if cur.len() == 0 {
            Seq::empty()
        } else {
            seq![cur]
        }
    } else if s[0] == '\n' {
        if cur.len() == 0 {
            split_lines(s.drop_first(), Seq::empty())
        } else {
            seq![cur] + split_lines(s.drop_first(), Seq::empty())
        }
    } else {
        split_lines(s.drop_first(), cur.push(s[0]))
    }
}

/// The words of a word-list text: one candidate solution per line.
pub open spec fn lines_of(s: Seq<char>) -> Seq<Seq<char>> {
    split_lines(s, Seq::empty())
}

/// The words of a list, as the character sequences they hold.
pub open spec fn views_of(words: Seq<Vec<char>>) -> Seq<Seq<char>> {
    words.map_values(|w: Vec<char>| w@)
}

/// Parses word-list text into its words, one per line, blank lines
/// dropped.
pub fn parse_word_list(text: &Vec<char>) -> (r: Vec<Vec<char>>)
    ensures
        views_of(r@) == lines_of(text@),
{
    let mut r: Vec<Vec<char>> = Vec::new();
    let mut cur: Vec<char> = Vec::new();
    let mut i: usize = 0;
    proof {
        assert(text@.skip(0) =~= text@);
        assert(views_of(r@) + split_lines(text@, Seq::empty()) =~= split_lines(
            text@,
            Seq::empty(),
        ));
    }
    while i < text.len()
        invariant
            i <= text@.len(),
            lines_of(text@) == views_of(r@) + split_lines(text@.skip(i as int), cur@),
        decreases text@.len() - i,
    {
        let ghost rest = text@.skip(i as int);
        let ghost prev_words = r@;
        let ghost prev_cur = cur@;
        proof {
            assert(rest[0] == text@[i as int]);
            assert(rest.drop_first() =~= text@.skip(i + 1));
        }
        let c = text[i];
        if c == '\n' {
            if cur.len() > 0 {
                r.push(cur);
                cur = Vec::new();
                proof {
                    assert(views_of(r@) =~= views_of(prev_words).push(prev_cur));
                    assert(split_lines(rest, prev_cur) == seq![prev_cur] + split_lines(
                        rest.drop_first(),
                        Seq::empty(),
                    ));
                    assert(views_of(prev_words) + (seq![prev_cur] + split_lines(
                        rest.drop_first(),
                        Seq::empty(),
                    )) =~= views_of(r@) + split_lines(text@.skip(i + 1), Seq::empty()));
                }
            } else {
                proof {
                    assert(cur@ =~= Seq::<char>::empty());
                    assert(split_lines(rest, cur@) == split_lines(
                        rest.drop_first(),
                        Seq::empty(),
                    ));
                }
            }
        } else {
            cur.push(c);
            proof {
                assert(split_lines(rest, prev_cur) == split_lines(rest.drop_first(), cur@));
            }
        }
        i = i + 1;
    }
    proof {
        assert(text@.skip(i as int) =~= Seq::<char>::empty());
    }
    if cur.len() > 0 {
        let ghost prev_words = r@;
        let ghost prev_cur = cur@;
        r.push(cur);
        proof {
            assert(views_of(r@) =~= views_of(prev_words).push(prev_cur));
            assert(views_of(prev_words) + seq![prev_cur] =~= views_of(r@));
        }
    } else {
        proof {
            assert(cur@ =~= Seq::<char>::empty());
            assert(views_of(r@) + Seq::<Seq<char>>::empty() =~= views_of(r@));
        }
    }
    r
}

/// Relies on rand's `thread_rng` and `Rng::gen_range`, which returns a
/// value of the given non-empty range.
#[verifier::external_body]
fn random_index(n: usize) -> (r: usize)
    requires
        n > 0,
    ensures
        r < n,
{
    rand::thread_rng().gen_range(0..n)
}

/// Draws the session's solution from the word list: some word of the
/// list, chosen at random, independently of earlier sessions.
pub fn choose_word(words: &Vec<Vec<char>>) -> (r: Vec<char>)
    requires
        words@.len() > 0,
    ensures
        exists|i: int| 0 <= i < words@.len() && r@ == #[trigger] words@[i]@,
{
    let i = random_index(words.len());
    let word = &words[i];
    let mut r: Vec<char> = Vec::new();
    let mut k: usize = 0;
    while k < word.len()
        invariant
            k <= word.len(),
            r@ =~= word@.take(k as int),
        decreases word.len() - k,
    {
        r.push(word[k]);
        k = k + 1;
    }
    proof {
        assert(r@ =~= words@[i as int]@);
    }
    r
}

} // verus!
