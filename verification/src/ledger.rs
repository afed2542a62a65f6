//! Per-user token balances: the model of one balance table keyed by user
//! identifier, with additive credit, conditional debit that never drives a
//! balance negative, reads that treat a missing row as zero, and a ranked
//! leaderboard.
//!
//! Identifiers and balances are validated against the width of the
//! backing store's signed integer column; a value that does not fit is
//! rejected with a conversion error before anything changes.

use vstd::prelude::*;

verus! {

/// Largest value the store's signed 64-bit column can hold.
pub const MAX_STORE_INT: u64 = 9223372036854775807;

/// How a ledger operation can fail.
#[derive(Clone, Copy, PartialEq, Eq, Structural, Debug)]
pub enum DatabaseError {
    /// A debit asked for more than the user's row holds, or the row is
    /// missing.  The balance is left unchanged.
    InsufficentTokens,
    /// An identifier or amount does not fit the store's integer column.
    IntError,
}

impl DatabaseError {
    /// A short description of the failure.
    pub fn message(&self) -> (r: &'static str)
        ensures
            *self == DatabaseError::InsufficentTokens ==> r@ == "InsufficentTokens"@,
            *self == DatabaseError::IntError ==> r@ == "IntError"@,
    {
        match self {
            DatabaseError::InsufficentTokens => "InsufficentTokens",
            DatabaseError::IntError => "IntError",
        }
    }
}

/// Row identifiers strictly increase: one row per user, in the store's
/// natural order.
pub open spec fn ids_strictly_sorted(s: Seq<(u64, u64)>) -> bool {
    forall|i: int, j: int| 0 <= i < j < s.len() ==> (#[trigger] s[i]).0 < (#[trigger] s[j]).0
}

/// Every stored identifier and balance fits the store's integer column.
pub open spec fn rows_fit_store(s: Seq<(u64, u64)>) -> bool {
    forall|i: int|
        0 <= i < s.len() ==> (#[trigger] s[i]).0 <= MAX_STORE_INT && s[i].1 <= MAX_STORE_INT
}

/// Some row carries this user.
pub open spec fn seq_has_user(s: Seq<(u64, u64)>, user: u64) -> bool {
    exists|i: int| 0 <= i < s.len() && (#[trigger] s[i]).0 == user
}

/// The index of the user's row (meaningful when `seq_has_user` holds).
pub open spec fn seq_user_index(s: Seq<(u64, u64)>, user: u64) -> int {
    choose|i: int| 0 <= i < s.len() && (#[trigger] s[i]).0 == user
}

/// The user's balance; a missing row reads as zero.
pub open spec fn seq_balance(s: Seq<(u64, u64)>, user: u64) -> u64 {
    if seq_has_user(s, user) {
        s[seq_user_index(s, user)].1
    } else {
        0
    }
}

/// A row at index `i` carrying `user` pins down the user's balance: row
/// identifiers are unique, so `i` is the user's row.
proof fn lemma_balance_at(s: Seq<(u64, u64)>, user: u64, i: int)
    requires
        ids_strictly_sorted(s),
        0 <= i < s.len(),
        s[i].0 == user,
    ensures
        seq_has_user(s, user),
        seq_user_index(s, user) == i,
        seq_balance(s, user) == s[i].1,
{
    assert(seq_has_user(s, user));
    let j = seq_user_index(s, user);
    if j < i {
        assert(s[j].0 < s[i].0);
    } else if j > i {
        assert(s[i].0 < s[j].0);
    }
}

/// The token balance store: one row per user who ever received or spent
/// tokens, ordered by identifier.
pub struct TokenLedger {
    pub entries: Vec<(u64, u64)>,
}

impl TokenLedger {
    /// Row identifiers unique and ordered, every value within the store's
    /// integer column.
    pub open spec fn wf(self) -> bool {
        ids_strictly_sorted(self.entries@) && rows_fit_store(self.entries@)
    }

    /// The user has a row.
    pub open spec fn has_user(self, user: u64) -> bool {
        seq_has_user(self.entries@, user)
    }

    /// The user's balance; absence of a row is zero, not an error.
    pub open spec fn balance_of(self, user: u64) -> u64 {
        seq_balance(self.entries@, user)
    }

    /// An empty store: nobody has a row, every balance reads zero.
    pub fn new() -> (l: TokenLedger)
        ensures
            l.wf(),
            l.entries@.len() == 0,
            forall|u: u64| !l.has_user(u),
            forall|u: u64| l.balance_of(u) == 0,
    {
        let l = TokenLedger { entries: Vec::new() };
        proof {
            assert(forall|u: u64| !seq_has_user(l.entries@, u));
        }
        l
    }
}

/// First index whose row identifier is not below `user`: the user's row
/// if one exists, else where such a row would be inserted.
fn find_slot(entries: &Vec<(u64, u64)>, user: u64) -> (k: usize)
    requires
        ids_strictly_sorted(entries@),
    ensures
        k <= entries@.len(),
        forall|i: int| 0 <= i < k ==> (#[trigger] entries@[i]).0 < user,
        k < entries@.len() ==> entries@[k as int].0 >= user,
{
    let mut k: usize = 0;
    while k < entries.len() && entries[k].0 < user
        invariant
            k <= entries@.len(),
            forall|i: int| 0 <= i < k ==> (#[trigger] entries@[i]).0 < user,
        decreases entries@.len() - k,
    {
        k = k + 1;
    }
    k
}

/// When `find_slot` does not land on the user's row, no row carries the
/// user at all.
proof fn lemma_no_row(s: Seq<(u64, u64)>, user: u64, k: int)
    requires
        ids_strictly_sorted(s),
        0 <= k <= s.len(),
        forall|i: int| 0 <= i < k ==> (#[trigger] s[i]).0 < user,
        k < s.len() ==> s[k].0 > user,
    ensures
        !seq_has_user(s, user),
        seq_balance(s, user) == 0,
{
    assert forall|i: int| 0 <= i < s.len() implies (#[trigger] s[i]).0 != user by {
        if i >= k {
            if i > k {
                assert(s[k].0 < s[i].0);
            }
        }
    }
}

/// Rewriting one row in place, keeping its identifier, touches no other
/// user's row or balance.
proof fn lemma_update_row(pre: Seq<(u64, u64)>, post: Seq<(u64, u64)>, k: int, user: u64, nb: u64)
    requires
        ids_strictly_sorted(pre),
        0 <= k < pre.len(),
        pre[k].0 == user,
        post == pre.update(k, (user, nb)),
    ensures
        ids_strictly_sorted(post),
        seq_has_user(post, user),
        seq_balance(post, user) == nb,
        forall|v: u64|
            v != user ==> seq_balance(post, v) == seq_balance(pre, v) && (seq_has_user(post, v)
                <==> seq_has_user(pre, v)),
{
    assert forall|i: int, j: int| 0 <= i < j < post.len() implies (#[trigger] post[i]).0 < (
    #[trigger] post[j]).0 by {
        assert(pre[i].0 < pre[j].0);
    }
    lemma_balance_at(post, user, k);
    assert forall|v: u64| v != user implies seq_balance(post, v) == seq_balance(pre, v) && (
    seq_has_user(post, v) <==> seq_has_user(pre, v)) by {
        if seq_has_user(pre, v) {
            let i = choose|i: int| 0 <= i < pre.len() && (#[trigger] pre[i]).0 == v;
            assert(post[i].0 == v);
            lemma_balance_at(pre, v, i);
            lemma_balance_at(post, v, i);
        } else {
            if seq_has_user(post, v) {
                let i = choose|i: int| 0 <= i < post.len() && (#[trigger] post[i]).0 == v;
                assert(pre[i].0 == v);
                assert(seq_has_user(pre, v));
            }
        }
    }
}

/// Inserting a fresh row for `user` at its slot keeps the order and
/// touches no other user's row or balance.
proof fn lemma_insert_row(pre: Seq<(u64, u64)>, post: Seq<(u64, u64)>, k: int, user: u64, nb: u64)
    requires
        ids_strictly_sorted(pre),
        0 <= k <= pre.len(),
        forall|i: int| 0 <= i < k ==> (#[trigger] pre[i]).0 < user,
        forall|i: int| k <= i < pre.len() ==> (#[trigger] pre[i]).0 > user,
        post == pre.insert(k, (user, nb)),
    ensures
        ids_strictly_sorted(post),
        seq_has_user(post, user),
        seq_balance(post, user) == nb,
        forall|v: u64|
            v != user ==> seq_balance(post, v) == seq_balance(pre, v) && (seq_has_user(post, v)
                <==> seq_has_user(pre, v)),
{
    pre.insert_ensures(k, (user, nb));
    assert forall|i: int, j: int| 0 <= i < j < post.len() implies (#[trigger] post[i]).0 < (
    #[trigger] post[j]).0 by {
        if i < k && j > k {
            assert(post[i] == pre[i] && post[j] == pre[j - 1]);
        } else if i < k && j == k {
            assert(post[i] == pre[i]);
        } else if i == k && j > k {
            assert(post[j] == pre[j - 1]);
        } else if i > k {
            assert(post[i] == pre[i - 1] && post[j] == pre[j - 1]);
        } else {
            assert(post[i] == pre[i] && post[j] == pre[j]);
        }
    }
    lemma_balance_at(post, user, k);
    assert forall|v: u64| v != user implies seq_balance(post, v) == seq_balance(pre, v) && (
    seq_has_user(post, v) <==> seq_has_user(pre, v)) by {
        if seq_has_user(pre, v) {
            let i = choose|i: int| 0 <= i < pre.len() && (#[trigger] pre[i]).0 == v;
            lemma_balance_at(pre, v, i);
            if i < k {
                assert(post[i].0 == v);
                lemma_balance_at(post, v, i);
            } else {
                assert(post[i + 1].0 == v);
                lemma_balance_at(post, v, i + 1);
            }
        } else {
            if seq_has_user(post, v) {
                let i = choose|i: int| 0 <= i < post.len() && (#[trigger] post[i]).0 == v;
                if i < k {
                    assert(pre[i].0 == v);
                    assert(seq_has_user(pre, v));
                } else if i > k {
                    assert(pre[i - 1].0 == v);
                    assert(seq_has_user(pre, v));
                }
            }
        }
    }
}

impl TokenLedger {
    /// Credits `tokens` to the user, creating the row on first credit.
    /// Fails with `IntError`, changing nothing, exactly when the
    /// identifier, the amount, or the resulting balance does not fit the
    /// store's integer column.
    pub fn add_tokens(&mut self, user: u64, tokens: u64) -> (r: Result<(), DatabaseError>)
        requires
            old(self).wf(),
        ensures
            final(self).wf(),
            r is Err ==> *final(self) == *old(self) && r->Err_0 == DatabaseError::IntError,
            r is Err <==> (user > MAX_STORE_INT || tokens > MAX_STORE_INT || old(self).balance_of(
                user,
            ) + tokens > MAX_STORE_INT),
            r is Ok ==> final(self).has_user(user),
            r is Ok ==> final(self).balance_of(user) == old(self).balance_of(user) + tokens,
            r is Ok ==> forall|v: u64|
                v != user ==> final(self).balance_of(v) == old(self).balance_of(v) && (final(
                self).has_user(v) <==> old(self).has_user(v)),
    {
        if user > MAX_STORE_INT || tokens > MAX_STORE_INT {
            return Err(DatabaseError::IntError);
        }
        let k = find_slot(&self.entries, user);
        if k < self.entries.len() && self.entries[k].0 == user {
            let bal = self.entries[k].1;
            proof {
                lemma_balance_at(old(self).entries@, user, k as int);
            }
            if bal > MAX_STORE_INT - tokens {
                return Err(DatabaseError::IntError);
            }
            let nb = bal + tokens;
            self.entries.remove(k);
            self.entries.insert(k, (user, nb));
            proof {
                assert(self.entries@ =~= old(self).entries@.update(k as int, (user, nb)));
                lemma_update_row(old(self).entries@, self.entries@, k as int, user, nb);
            }
            Ok(())
        } else {
            proof {
                lemma_no_row(old(self).entries@, user, k as int);
                let pre = old(self).entries@;
                assert forall|i: int| k <= i < pre.len() implies (#[trigger] pre[i]).0 > user by {
                    if i > k {
                        assert(old(self).entries@[k as int].0 < old(self).entries@[i].0);
                    }
                }
            }
            self.entries.insert(k, (user, tokens));
            proof {
                lemma_insert_row(old(self).entries@, self.entries@, k as int, user, tokens);
            }
            Ok(())
        }
    }

    /// Reads the user's balance; a user without a row reads zero.  Fails
    /// with `IntError` exactly when the identifier does not fit the
    /// store's integer column.
    pub fn get_tokens(&self, user: u64) -> (r: Result<u64, DatabaseError>)
        requires
            self.wf(),
        ensures
            r is Err <==> user > MAX_STORE_INT,
            r is Err ==> r->Err_0 == DatabaseError::IntError,
            r is Ok ==> r->Ok_0 == self.balance_of(user),
    {
        if user > MAX_STORE_INT {
            return Err(DatabaseError::IntError);
        }
        let k = find_slot(&self.entries, user);
        if k < self.entries.len() && self.entries[k].0 == user {
            proof {
                lemma_balance_at(self.entries@, user, k as int);
            }
            Ok(self.entries[k].1)
        } else {
            proof {
                lemma_no_row(self.entries@, user, k as int);
            }
            Ok(0)
        }
    }

    /// Debits `tokens` from the user's row only if the whole amount is
    /// covered: with a missing row or an insufficient balance it fails
    /// with `InsufficentTokens` and the balance is left unchanged — a
    /// balance can never go negative, and there is no partial debit.
    /// `IntError` rejects values that do not fit the store's column.
    pub fn remove_tokens(&mut self, user: u64, tokens: u64) -> (r: Result<(), DatabaseError>)
        requires
            old(self).wf(),
        ensures
            final(self).wf(),
            r is Err ==> *final(self) == *old(self),
            r is Ok <==> (user <= MAX_STORE_INT && tokens <= MAX_STORE_INT && old(self).has_user(
                user,
            ) && old(self).balance_of(user) >= tokens),
            r == Result::<(), DatabaseError>::Err(DatabaseError::IntError) <==> (user
                > MAX_STORE_INT || tokens > MAX_STORE_INT),
            r == Result::<(), DatabaseError>::Err(DatabaseError::InsufficentTokens) <==> (user
                <= MAX_STORE_INT && tokens <= MAX_STORE_INT && !(old(self).has_user(user) && old(
                self,
            ).balance_of(user) >= tokens)),
            r is Ok ==> final(self).has_user(user),
            r is Ok ==> final(self).balance_of(user) == old(self).balance_of(user) - tokens,
            r is Ok ==> forall|v: u64|
                v != user ==> final(self).balance_of(v) == old(self).balance_of(v) && (final(
                self).has_user(v) <==> old(self).has_user(v)),
    {
        if user > MAX_STORE_INT || tokens > MAX_STORE_INT {
            return Err(DatabaseError::IntError);
        }
        let k = find_slot(&self.entries, user);
        if k < self.entries.len() && self.entries[k].0 == user {
            let bal = self.entries[k].1;
            proof {
                lemma_balance_at(old(self).entries@, user, k as int);
            }
            if bal < tokens {
                return Err(DatabaseError::InsufficentTokens);
            }
            let nb = bal - tokens;
            self.entries.remove(k);
            self.entries.insert(k, (user, nb));
            proof {
                assert(self.entries@ =~= old(self).entries@.update(k as int, (user, nb)));
                lemma_update_row(old(self).entries@, self.entries@, k as int, user, nb);
            }
            Ok(())
        } else {
            proof {
                lemma_no_row(old(self).entries@, user, k as int);
            }
            Err(DatabaseError::InsufficentTokens)
        }
    }
}

/// `a` may stand at or before `b` on the leaderboard: the higher balance
/// first, ties broken by the lower identifier (the store's natural
/// order), so the order is total and deterministic.
pub open spec fn rank_le(a: (u64, u64), b: (u64, u64)) -> bool {
    a.1 > b.1 || (a.1 == b.1 && a.0 <= b.0)
}

/// The rows stand in leaderboard order.
pub open spec fn ranked(s: Seq<(u64, u64)>) -> bool {
    forall|i: int, j: int| 0 <= i < j < s.len() ==> rank_le(#[trigger] s[i], #[trigger] s[j])
}

/// Reorders rows into leaderboard order, keeping exactly the same rows
/// (insertion sort: each row goes to its slot in the sorted prefix).
fn sort_entries(v: &Vec<(u64, u64)>) -> (r: Vec<(u64, u64)>)
    ensures
        ranked(r@),
        r@.to_multiset() == v@.to_multiset(),
        r@.len() == v@.len(),
{
    broadcast use vstd::seq_lib::group_to_multiset_ensures;

    let mut r: Vec<(u64, u64)> = Vec::new();
    let mut i: usize = 0;
    proof {
        assert(r@ =~= v@.take(0));
    }
    while i < v.len()
        invariant
            i <= v@.len(),
            r@.len() == i,
            ranked(r@),
            r@.to_multiset() == v@.take(i as int).to_multiset(),
        decreases v@.len() - i,
    {
        broadcast use vstd::seq_lib::group_to_multiset_ensures;

        let e = v[i];
        let mut p: usize = 0;
        while p < r.len() && (r[p].1 > e.1 || (r[p].1 == e.1 && r[p].0 <= e.0))
            invariant
                p <= r@.len(),
                forall|k: int| 0 <= k < p ==> rank_le(#[trigger] r@[k], e),
            decreases r@.len() - p,
        {
            p = p + 1;
        }
        let ghost pre = r@;
        proof {
            assert forall|k: int| p <= k < pre.len() implies rank_le(e, #[trigger] pre[k]) by {
                assert(rank_le(pre[p as int], pre[k]));
            }
            pre.insert_ensures(p as int, e);
        }
        r.insert(p, e);
        proof {
            assert forall|x: int, y: int| 0 <= x < y < r@.len() implies rank_le(
                #[trigger] r@[x],
                #[trigger] r@[y],
            ) by {
                if y < p {
                    assert(r@[x] == pre[x] && r@[y] == pre[y]);
                } else if x > p {
                    assert(r@[x] == pre[x - 1] && r@[y] == pre[y - 1]);
                } else if x < p && y == p {
                    assert(r@[x] == pre[x] && r@[y] == e);
                } else if x < p && y > p {
                    assert(r@[x] == pre[x] && r@[y] == pre[y - 1]);
                } else {
                    assert(r@[x] == e && r@[y] == pre[y - 1]);
                }
            }
            assert(pre.insert(p as int, e).to_multiset() == pre.to_multiset().insert(e));
            assert(v@.take(i + 1) =~= v@.take(i as int).push(v@[i as int]));
            assert(v@.take(i as int).push(v@[i as int]).to_multiset() =~= v@.take(
                i as int,
            ).to_multiset().insert(v@[i as int]));
            assert(r@.to_multiset() =~= v@.take(i + 1).to_multiset());
        }
        i = i + 1;
    }
    proof {
        assert(v@.take(i as int) =~= v@);
    }
    r
}

impl TokenLedger {
    /// The ten best-funded rows, best first: at most ten rows, sorted by
    /// balance descending with ties broken by identifier, every returned
    /// row is a row of the store, and no omitted row outranks a returned
    /// one.  Stored rows always fit the store's column, so the read
    /// itself cannot fail.
    pub fn list_leadboard(&self) -> (r: Result<Vec<(u64, u64)>, DatabaseError>)
        requires
            self.wf(),
        ensures
            r is Ok,
            ({
                let out = r->Ok_0@;
                &&& out.len() == if self.entries@.len() < 10 {
                    self.entries@.len() as int
                } else {
                    10int
                }
                &&& ranked(out)
                &&& forall|i: int, j: int|
                    0 <= i < j < out.len() ==> (#[trigger] out[i]).1 >= (#[trigger] out[j]).1
                &&& forall|i: int| 0 <= i < out.len() ==> self.entries@.contains(#[trigger] out[i])
                &&& forall|k: int, i: int|
                    #![trigger out[i], self.entries@[k]]
                    0 <= k < self.entries@.len() && 0 <= i < out.len() && !out.contains(
                        self.entries@[k],
                    ) ==> rank_le(out[i], self.entries@[k])
            }),
    {
        broadcast use vstd::seq_lib::group_to_multiset_ensures;

        let mut out = sort_entries(&self.entries);
        let ghost full = out@;
        out.truncate(10);
        proof {
            if full.len() >= 10 {
                assert(out@ =~= full.subrange(0, 10));
            } else {
                assert(out@ =~= full);
            }
            assert forall|i: int| 0 <= i < out@.len() implies self.entries@.contains(
                #[trigger] out@[i],
            ) by {
                assert(full[i] == out@[i]);
                assert(full.contains(full[i]));
                assert(full.to_multiset().count(full[i]) > 0);
                assert(self.entries@.contains(full[i]));
            }
            assert forall|k: int, i: int|
                0 <= k < self.entries@.len() && 0 <= i < out@.len() && !out@.contains(
                    self.entries@[k],
                ) implies rank_le(out@[i], self.entries@[k]) by {
                let e = self.entries@[k];
                assert(self.entries@.contains(e));
                assert(self.entries@.to_multiset().count(e) > 0);
                assert(full.contains(e));
                let m = choose|m: int| 0 <= m < full.len() && full[m] == e;
                if m < out@.len() {
                    assert(out@[m] == e);
                    assert(false);
                } else {
                    assert(rank_le(full[i], full[m]));
                    assert(out@[i] == full[i]);
                }
            }
        }
        Ok(out)
    }
}

/// Any serialization of independent credits of the same amount to one
/// user raises that user's balance by exactly the amount times the number
/// of credits: since each credit adds its amount to the balance it found,
/// no update is lost.
pub proof fn lemma_serial_credits(balances: Seq<int>, amount: int)
    requires
        balances.len() >= 1,
        forall|i: int| 0 < i < balances.len() ==> #[trigger] balances[i] == balances[i - 1] + amount,
    ensures
        balances.last() == balances[0] + (balances.len() - 1) * amount,
    decreases balances.len(),
{
    if balances.len() == 1 {
        assert((balances.len() - 1) * amount == 0) by (nonlinear_arith)
            requires balances.len() == 1;
    } else {
        let prefix = balances.drop_last();
        assert forall|i: int| 0 < i < prefix.len() implies #[trigger] prefix[i] == prefix[i - 1]
            + amount by {
            assert(balances[i] == balances[i - 1] + amount);
        }
        lemma_serial_credits(prefix, amount);
        let n = balances.len() as int;
        assert(prefix.last() == balances[n - 2]);
        assert(prefix[0] == balances[0]);
        assert(balances[n - 1] == balances[n - 2] + amount);
        assert(balances.last() == balances[0] + (n - 2) * amount + amount);
        assert((n - 2) * amount + amount == (n - 1) * amount) by (nonlinear_arith);
    }
}

} // verus!
