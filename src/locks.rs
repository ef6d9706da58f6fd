//! The vesting lock ledger: per account, the balances that unlock at future
//! blocks, kept as entries `(unlock_block, balance)` in increasing key order.
use crate::arith::saturate;
use crate::Error;
use vstd::prelude::*;

verus! {

/// The bounds that lock parameters must lie within.
pub struct LockBounds {
    pub period_max: u16,
    pub period_min: u16,
    pub divide_max: u16,
    pub divide_min: u16,
}

/// How a payout is spread over future unlocks: over `period` blocks, in
/// `divide` parts.
#[derive(Clone, Copy, PartialEq, Eq, Debug, Structural)]
pub struct LockParameters {
    pub period: u16,
    pub divide: u16,
}

impl LockParameters {
    /// Parameters that a lock schedule can be drawn from.
    pub open spec fn valid(self) -> bool {
        self.divide > 0 && self.period % self.divide == 0
    }
}

/// What an account's currency-level lock becomes.
#[derive(Clone, Copy, PartialEq, Eq, Debug, Structural)]
pub enum CurrencyLock {
    /// Locked to exactly this amount, for every withdrawal but fees.
    LockedTo(u128),
    /// No lock record at all.
    Removed,
}

/// Keys strictly increase, so each unlock block appears once.
pub open spec fn keys_increasing<V>(s: Seq<(u64, V)>) -> bool {
    forall|a: int, b: int| 0 <= a < b < s.len() ==> s[a].0 < s[b].0
}

/// The sum of all balances.
pub open spec fn total_of(s: Seq<(u64, u128)>) -> nat
    decreases s.len(),
{
    if s.len() == 0 {
        0
    } else {
        total_of(s.drop_last()) + s.last().1 as nat
    }
}

/// The entries whose unlock block lies after `now`, in their order.
pub open spec fn unexpired(s: Seq<(u64, u128)>, now: u64) -> Seq<(u64, u128)>
    decreases s.len(),
{
    if s.len() == 0 {
        s
    } else if s.last().0 > now {
        unexpired(s.drop_last(), now).push(s.last())
    } else {
        unexpired(s.drop_last(), now)
    }
}

pub open spec fn has_key<V>(s: Seq<(u64, V)>, k: u64) -> bool {
    exists|i: int| 0 <= i < s.len() && s[i].0 == k
}

/// The balance that unlocks at block `k`; zero where none does.
pub open spec fn locked_at(s: Seq<(u64, u128)>, k: u64) -> nat {
    if has_key(s, k) {
        s[choose|i: int| 0 <= i < s.len() && s[i].0 == k].1 as nat
    } else {
        0
    }
}

pub proof fn lemma_locked_at_index(s: Seq<(u64, u128)>, i: int)
    requires
        keys_increasing(s),
        0 <= i < s.len(),
    ensures
        has_key(s, s[i].0),
        locked_at(s, s[i].0) == s[i].1,
{
    let k = s[i].0;
    assert(has_key(s, k));
    let j = choose|j: int| 0 <= j < s.len() && s[j].0 == k;
    if j < i {
        assert(s[j].0 < s[i].0);
    } else if j > i {
        assert(s[i].0 < s[j].0);
    }
}

/// Every entry that `unexpired` keeps unlocks after `now`, and the keys
/// keep increasing.
pub proof fn lemma_unexpired(s: Seq<(u64, u128)>, now: u64)
    ensures
        forall|j: int| 0 <= j < unexpired(s, now).len() ==> unexpired(s, now)[j].0 > now,
        forall|j: int|
            0 <= j < unexpired(s, now).len() ==> exists|m: int|
                0 <= m < s.len() && s[m] == #[trigger] unexpired(s, now)[j],
        keys_increasing(s) ==> keys_increasing(unexpired(s, now)),
        forall|m: int|
            0 <= m < s.len() && #[trigger] s[m].0 > now ==> exists|j: int|
                0 <= j < unexpired(s, now).len() && unexpired(s, now)[j] == s[m],
    decreases s.len(),
{
    if s.len() > 0 {
        let rest = s.drop_last();
        lemma_unexpired(rest, now);
        let u = unexpired(s, now);
        let ur = unexpired(rest, now);
        assert forall|m: int| 0 <= m < s.len() && #[trigger] s[m].0 > now implies exists|j: int|
            0 <= j < u.len() && u[j] == s[m] by {
            if m < s.len() - 1 {
                assert(rest[m] == s[m]);
                let j = choose|j: int| 0 <= j < ur.len() && ur[j] == rest[m];
                assert(u[j] == ur[j]);
            } else {
                assert(u[u.len() - 1] == s[m]);
            }
        }
        assert forall|j: int| 0 <= j < u.len() implies exists|m: int|
            0 <= m < s.len() && s[m] == #[trigger] u[j] by {
            if j < ur.len() {
                assert(u[j] == ur[j]);
                let m = choose|m: int| 0 <= m < rest.len() && rest[m] == ur[j];
                assert(s[m] == u[j]);
            } else {
                assert(s[s.len() - 1] == u[j]);
            }
        }
        if keys_increasing(s) {
            assert(keys_increasing(rest));
            assert forall|a: int, b: int| 0 <= a < b < u.len() implies u[a].0 < u[b].0 by {
                if b < ur.len() {
                    assert(u[a] == ur[a] && u[b] == ur[b]);
                } else {
                    assert(u[a] == ur[a]);
                    let m = choose|m: int| 0 <= m < rest.len() && rest[m] == ur[a];
                    assert(s[m].0 < s[s.len() - 1].0);
                }
            }
        }
    }
}

/// Drops the expired entries of an account's locks, or all of them when
/// `force` is set, and says what the account's currency lock becomes:
/// exactly the total still locked, or no record at all when forced.
pub fn settle(locks: Vec<(u64, u128)>, current_block: u64, force: bool) -> (r: (
    Vec<(u64, u128)>,
    CurrencyLock,
))
    ensures
        force ==> r.0@.len() == 0 && r.1 == CurrencyLock::Removed,
        !force ==> r.0@ == unexpired(locks@, current_block) && r.1 == CurrencyLock::LockedTo(
            saturate(total_of(r.0@)) as u128,
        ),
        forall|j: int| 0 <= j < r.0@.len() ==> r.0@[j].0 > current_block,
        keys_increasing(locks@) ==> keys_increasing(r.0@),
{
    if force {
        return (Vec::new(), CurrencyLock::Removed);
    }
    let mut kept: Vec<(u64, u128)> = Vec::new();
    let mut total_locked: u128 = 0;
    let mut i: usize = 0;
    while i < locks.len()
        invariant
            i <= locks@.len(),
            kept@ == unexpired(locks@.subrange(0, i as int), current_block),
            total_locked == saturate(total_of(kept@)),
        decreases locks@.len() - i,
    {
        let (block_number, locked_balance) = locks[i];
        assert(locks@.subrange(0, i + 1).drop_last() =~= locks@.subrange(0, i as int));
        if block_number > current_block {
            kept.push((block_number, locked_balance));
            assert(kept@.drop_last() =~= unexpired(locks@.subrange(0, i as int), current_block));
            total_locked = total_locked.saturating_add(locked_balance);
        }
        i = i + 1;
    }
    assert(locks@.subrange(0, locks@.len() as int) =~= locks@);
    proof { lemma_unexpired(locks@, current_block); }
    (kept, CurrencyLock::LockedTo(total_locked))
}

/// Dropping the expired entries keeps the balance at every later block and
/// clears it at every other.
pub proof fn lemma_locked_at_unexpired(s: Seq<(u64, u128)>, now: u64)
    requires
        keys_increasing(s),
    ensures
        forall|k: u64|
            #[trigger] locked_at(unexpired(s, now), k) == if k > now {
                locked_at(s, k)
            } else {
                0
            },
{
    lemma_unexpired(s, now);
    let u = unexpired(s, now);
    assert forall|k: u64| #[trigger]
        locked_at(u, k) == if k > now {
            locked_at(s, k)
        } else {
            0
        } by {
        if has_key(u, k) {
            let j = choose|j: int| 0 <= j < u.len() && u[j].0 == k;
            let m = choose|m: int| 0 <= m < s.len() && s[m] == u[j];
            lemma_locked_at_index(u, j);
            lemma_locked_at_index(s, m);
        } else if k > now && has_key(s, k) {
            let m = choose|m: int| 0 <= m < s.len() && s[m].0 == k;
            let j = choose|j: int| 0 <= j < u.len() && u[j] == s[m];
            assert(u[j].0 == k);
        }
    }
}

/// The balances of `s` up to entry `n` and those up to entry `n + 1`
/// differ only at the key of entry `n`.
proof fn lemma_locked_at_extend(s: Seq<(u64, u128)>, n: int)
    requires
        keys_increasing(s),
        0 <= n < s.len(),
    ensures
        keys_increasing(s.subrange(0, n + 1)),
        forall|k: u64|
            #[trigger] locked_at(s.subrange(0, n + 1), k) == if k == s[n].0 {
                s[n].1 as nat
            } else {
                locked_at(s.subrange(0, n), k)
            },
{
    let a = s.subrange(0, n);
    let b = s.subrange(0, n + 1);
    assert(keys_increasing(a));
    assert(keys_increasing(b));
    lemma_locked_at_index(b, n);
    assert forall|k: u64| k != s[n].0 implies #[trigger] locked_at(b, k) == locked_at(a, k) by {
        if has_key(a, k) {
            let m = choose|m: int| 0 <= m < a.len() && a[m].0 == k;
            lemma_locked_at_index(a, m);
            lemma_locked_at_index(b, m);
        } else {
            assert(!has_key(b, k)) by {
                if has_key(b, k) {
                    let m = choose|m: int| 0 <= m < b.len() && b[m].0 == k;
                    assert(a[m].0 == k);
                }
            }
        }
    }
}

proof fn lemma_total_update(s: Seq<(u64, u128)>, i: int, v: (u64, u128))
    requires
        0 <= i < s.len(),
    ensures
        total_of(s.update(i, v)) == total_of(s) - s[i].1 + v.1,
    decreases s.len(),
{
    let t = s.update(i, v);
    if i == s.len() - 1 {
        assert(t.drop_last() =~= s.drop_last());
    } else {
        lemma_total_update(s.drop_last(), i, v);
        assert(t.drop_last() =~= s.drop_last().update(i, v));
    }
}

proof fn lemma_total_insert(s: Seq<(u64, u128)>, i: int, v: (u64, u128))
    requires
        0 <= i <= s.len(),
    ensures
        total_of(s.insert(i, v)) == total_of(s) + v.1,
    decreases s.len(),
{
    let t = s.insert(i, v);
    if i == s.len() {
        assert(t.drop_last() =~= s);
    } else {
        lemma_total_insert(s.drop_last(), i, v);
        assert(t.drop_last() =~= s.drop_last().insert(i, v));
    }
}

/// Where every entry unlocks after `now`, none is expired.
pub proof fn lemma_unexpired_all_after(s: Seq<(u64, u128)>, now: u64)
    requires
        forall|j: int| 0 <= j < s.len() ==> s[j].0 > now,
    ensures
        unexpired(s, now) == s,
    decreases s.len(),
{
    if s.len() > 0 {
        lemma_unexpired_all_after(s.drop_last(), now);
        assert(s.drop_last().push(s.last()) =~= s);
    }
}

/// Adds `amount` to the balance that unlocks at `key`, inserting the entry
/// where there is none, with the keys kept in order.
pub fn insert_lock(locks: &mut Vec<(u64, u128)>, key: u64, amount: u128)
    requires
        keys_increasing(old(locks)@),
    ensures
        keys_increasing(final(locks)@),
        forall|k: u64|
            #[trigger] locked_at(final(locks)@, k) == if k == key {
                saturate((locked_at(old(locks)@, k) + amount) as nat)
            } else {
                locked_at(old(locks)@, k)
            },
        forall|j: int|
            0 <= j < final(locks)@.len() ==> final(locks)@[j].0 == key || has_key(
                old(locks)@,
                #[trigger] final(locks)@[j].0,
            ),
        locked_at(old(locks)@, key) + amount <= u128::MAX ==> total_of(final(locks)@) == total_of(
            old(locks)@,
        ) + amount,
{
    let ghost s = locks@;
    let mut i: usize = 0;
    while i < locks.len() && locks[i].0 < key
        invariant
            locks@ == s,
            i <= s.len(),
            forall|j: int| 0 <= j < i ==> s[j].0 < key,
        decreases s.len() - i,
    {
        i = i + 1;
    }
    if i < locks.len() && locks[i].0 == key {
        let old_balance = locks[i].1;
        proof { lemma_locked_at_index(s, i as int); }
        locks.set(i, (key, old_balance.saturating_add(amount)));
        let ghost t = locks@;
        proof {
            lemma_total_update(s, i as int, (key, old_balance.saturating_add(amount)));
            assert forall|j: int| 0 <= j < t.len() implies has_key(s, #[trigger] t[j].0) by {
                assert(s[j].0 == t[j].0);
            }
        }
        assert(keys_increasing(t));
        proof { lemma_locked_at_index(t, i as int); }
        assert forall|k: u64| k != key implies #[trigger] locked_at(t, k) == locked_at(s, k) by {
            if has_key(s, k) {
                let m = choose|m: int| 0 <= m < s.len() && s[m].0 == k;
                lemma_locked_at_index(s, m);
                lemma_locked_at_index(t, m);
            } else {
                assert(!has_key(t, k)) by {
                    if has_key(t, k) {
                        let m = choose|m: int| 0 <= m < t.len() && t[m].0 == k;
                        assert(s[m].0 == k);
                    }
                }
            }
        }
    } else {
        locks.insert(i, (key, amount));
        let ghost t = locks@;
        assert(t == s.insert(i as int, (key, amount)));
        proof {
            lemma_total_insert(s, i as int, (key, amount));
            assert forall|j: int| 0 <= j < t.len() && t[j].0 != key implies has_key(
                s,
                #[trigger] t[j].0,
            ) by {
                if j < i {
                    assert(s[j] == t[j]);
                } else {
                    assert(s[j - 1] == t[j]);
                }
            }
        }
        assert(keys_increasing(t)) by {
            assert forall|a: int, b: int| 0 <= a < b < t.len() implies t[a].0 < t[b].0 by {
                if b > i as int {
                    assert(t[b] == s[b - 1]);
                    assert(s[i as int].0 >= key);
                    if b - 1 > i as int {
                        assert(s[i as int].0 < s[b - 1].0);
                    }
                }
            }
        }
        proof { lemma_locked_at_index(t, i as int); }
        assert(!has_key(s, key)) by {
            if has_key(s, key) {
                let m = choose|m: int| 0 <= m < s.len() && s[m].0 == key;
                if m > i as int {
                    assert(s[i as int].0 < s[m].0);
                }
            }
        }
        assert forall|k: u64| k != key implies #[trigger] locked_at(t, k) == locked_at(s, k) by {
            if has_key(s, k) {
                let m = choose|m: int| 0 <= m < s.len() && s[m].0 == k;
                lemma_locked_at_index(s, m);
                if m < i {
                    assert(t[m] == s[m]);
                    lemma_locked_at_index(t, m);
                } else {
                    assert(t[m + 1] == s[m]);
                    lemma_locked_at_index(t, m + 1);
                }
            } else {
                assert(!has_key(t, k)) by {
                    if has_key(t, k) {
                        let m = choose|m: int| 0 <= m < t.len() && t[m].0 == k;
                        if m < i {
                            assert(s[m].0 == k);
                        } else if m > i {
                            assert(s[m - 1].0 == k);
                        }
                    }
                }
            }
        }
    }
}

/// Adds each new lock to the balance at its unlock block, so that payouts
/// landing on the same future block are added up.
pub fn merge_locks(locks: &mut Vec<(u64, u128)>, new_locks: &Vec<(u64, u128)>)
    requires
        keys_increasing(old(locks)@),
        keys_increasing(new_locks@),
    ensures
        keys_increasing(final(locks)@),
        forall|k: u64|
            #[trigger] locked_at(final(locks)@, k) == saturate(
                locked_at(old(locks)@, k) + locked_at(new_locks@, k),
            ),
        forall|j: int|
            0 <= j < final(locks)@.len() ==> has_key(old(locks)@, #[trigger] final(locks)@[j].0)
                || has_key(new_locks@, final(locks)@[j].0),
        (forall|k: u64| #[trigger]
            locked_at(new_locks@, k) + locked_at(old(locks)@, k) <= u128::MAX) ==> total_of(
            final(locks)@,
        ) == total_of(old(locks)@) + total_of(new_locks@),
{
    let ghost s = locks@;
    let mut j: usize = 0;
    assert forall|k: u64| #[trigger] locked_at(new_locks@.subrange(0, 0), k) == 0 by {
        assert(!has_key(new_locks@.subrange(0, 0), k));
    }
    while j < new_locks.len()
        invariant
            j <= new_locks@.len(),
            keys_increasing(new_locks@),
            keys_increasing(locks@),
            forall|k: u64|
                #[trigger] locked_at(locks@, k) == saturate(
                    locked_at(s, k) + locked_at(new_locks@.subrange(0, j as int), k),
                ),
            forall|m: int|
                0 <= m < locks@.len() ==> has_key(s, #[trigger] locks@[m].0) || has_key(
                    new_locks@,
                    locks@[m].0,
                ),
            (forall|k: u64| #[trigger] locked_at(new_locks@, k) + locked_at(s, k) <= u128::MAX)
                ==> total_of(locks@) == total_of(s) + total_of(new_locks@.subrange(0, j as int)),
        decreases new_locks@.len() - j,
    {
        let (key, amount) = new_locks[j];
        let ghost before = locks@;
        proof {
            lemma_locked_at_extend(new_locks@, j as int);
            let sub = new_locks@.subrange(0, j as int);
            assert(!has_key(sub, key)) by {
                if has_key(sub, key) {
                    let m = choose|m: int| 0 <= m < sub.len() && sub[m].0 == key;
                    assert(new_locks@[m].0 < new_locks@[j as int].0);
                }
            }
            assert(locked_at(before, key) == locked_at(s, key));
            lemma_locked_at_index(new_locks@, j as int);
            assert(new_locks@.subrange(0, j + 1).drop_last() =~= new_locks@.subrange(0, j as int));
        }
        insert_lock(locks, key, amount);
        proof {
            let after = locks@;
            assert forall|m: int| 0 <= m < after.len() implies has_key(s, #[trigger] after[m].0)
                || has_key(new_locks@, after[m].0) by {
                if after[m].0 == key {
                    assert(new_locks@[j as int].0 == key);
                } else {
                    let q = choose|q: int| 0 <= q < before.len() && before[q].0 == after[m].0;
                    assert(has_key(s, before[q].0) || has_key(new_locks@, before[q].0));
                }
            }
        }
        j = j + 1;
    }
    assert(new_locks@.subrange(0, new_locks@.len() as int) =~= new_locks@);
}

/// A policy that turns a payout into a schedule of future unlocks.
pub trait GenerateRewardLocks {
    /// The schedule that the policy draws; it depends on its arguments
    /// alone.
    spec fn schedule_of(
        current_block: u64,
        total_reward: u128,
        lock_parameters: Option<LockParameters>,
    ) -> Seq<(u64, u128)>;

    /// The unlocks, by block, for `total_reward` paid at `current_block`;
    /// every one lies after `current_block`. Without parameters nothing is
    /// locked; with valid ones, and room for the unlock blocks, the unlocks
    /// add up to the payout exactly.
    fn generate_reward_locks(
        current_block: u64,
        total_reward: u128,
        lock_parameters: Option<LockParameters>,
    ) -> (r: Vec<(u64, u128)>)
        ensures
            r@ == Self::schedule_of(current_block, total_reward, lock_parameters),
            keys_increasing(r@),
            forall|j: int| 0 <= j < r@.len() ==> r@[j].0 > current_block,
            lock_parameters is None ==> r@.len() == 0,
            lock_parameters matches Some(p) && p.valid() && current_block <= u64::MAX - u16::MAX
                ==> total_of(r@) == total_reward,
    ;
}

/// Spreads a payout over `divide` equal unlocks, `period / divide` blocks
/// apart, the first one step after the current block; the remainder of the
/// division goes to the last unlock. A period shorter than the divide puts
/// the whole payout on the next block. Where the block numbers leave no room
/// for the unlocks, nothing is locked.
pub struct EvenLocks;

impl GenerateRewardLocks for EvenLocks {
    open spec fn schedule_of(
        current_block: u64,
        total_reward: u128,
        lock_parameters: Option<LockParameters>,
    ) -> Seq<(u64, u128)> {
        match lock_parameters {
            None => Seq::empty(),
            Some(p) => {
                if p.divide == 0 || current_block > u64::MAX - u16::MAX {
                    Seq::empty()
                } else if p.period / p.divide == 0 {
                    seq![((current_block + 1) as u64, total_reward)]
                } else {
                    let d = p.divide as nat;
                    let step = (p.period / p.divide) as nat;
                    let each = total_reward as nat / d;
                    Seq::new(
                        d,
                        |i: int|
                            (
                                (current_block + (i + 1) * step) as u64,
                                (if i + 1 == d {
                                    each + total_reward as nat % d
                                } else {
                                    each
                                }) as u128,
                            ),
                    )
                }
            },
        }
    }

    fn generate_reward_locks(
        current_block: u64,
        total_reward: u128,
        lock_parameters: Option<LockParameters>,
    ) -> (r: Vec<(u64, u128)>) {
        let p = match lock_parameters {
            None => return Vec::new(),
            Some(p) => p,
        };
        if p.divide == 0 || current_block > u64::MAX - (u16::MAX as u64) {
            return Vec::new();
        }
        let step: u64 = (p.period / p.divide) as u64;
        if step == 0 {
            let mut r: Vec<(u64, u128)> = Vec::new();
            r.push((current_block + 1, total_reward));
            assert(r@.drop_last() =~= Seq::<(u64, u128)>::empty());
            assert(total_of(r@.drop_last()) == 0);
            assert(r@ =~= Self::schedule_of(current_block, total_reward, lock_parameters));
            return r;
        }
        let d: u64 = p.divide as u64;
        let each: u128 = total_reward / (d as u128);
        let rem: u128 = total_reward % (d as u128);
        assert(d * step <= p.period) by (nonlinear_arith)
            requires
                step == p.period as nat / d as nat,
                d > 0,
        ;
        assert(each * d + rem == total_reward) by (nonlinear_arith)
            requires
                d > 0,
                each == total_reward as nat / d as nat,
                rem == total_reward as nat % d as nat,
        ;
        let mut r: Vec<(u64, u128)> = Vec::new();
        let mut i: u64 = 0;
        while i < d
            invariant
                0 < d <= u16::MAX,
                0 < step,
                d * step <= p.period,
                current_block <= u64::MAX - u16::MAX,
                each * d + rem == total_reward,
                i <= d,
                r@.len() == i,
                keys_increasing(r@),
                forall|j: int| 0 <= j < i ==> r@[j].0 == current_block + (j + 1) * step,
                forall|j: int| 0 <= j < i ==> r@[j].0 > current_block,
                forall|j: int|
                    0 <= j < i ==> r@[j].1 == if j + 1 == d {
                        each + rem
                    } else {
                        each as int
                    },
                i < d ==> total_of(r@) == i * each,
                i == d ==> total_of(r@) == total_reward,
            decreases d - i,
        {
            assert((i + 1) * step <= d * step) by (nonlinear_arith)
                requires
                    i + 1 <= d,
            ;
            assert((i + 1) * step >= 1) by (nonlinear_arith)
                requires
                    step > 0,
            ;
            let key: u64 = current_block + (i + 1) * step;
            assert(each + rem <= total_reward) by (nonlinear_arith)
                requires
                    each * d + rem == total_reward,
                    d >= 1,
            ;
            let amount: u128 = if i + 1 == d { each + rem } else { each };
            proof {
                assert forall|j: int| 0 <= j < i implies r@[j].0 < key by {
                    assert((j + 1) * step < (i + 1) * step) by (nonlinear_arith)
                        requires
                            j < i,
                            step > 0,
                    ;
                }
                assert(i * each + each == (i + 1) * each) by (nonlinear_arith);
                if i + 1 == d {
                    assert(i * each + each + rem == total_reward) by (nonlinear_arith)
                        requires
                            i + 1 == d,
                            each * d + rem == total_reward,
                    ;
                }
            }
            let ghost before = r@;
            r.push((key, amount));
            assert(r@.drop_last() =~= before);
            assert(total_of(r@) == total_of(before) + amount);
            i = i + 1;
        }
        assert(r@ =~= Self::schedule_of(current_block, total_reward, lock_parameters));
        r
    }
}

/// What lock parameters are judged against `bounds`: out of bounds, not
/// divisible (a zero `divide` divides nothing), or accepted.
pub open spec fn lock_params_verdict(bounds: LockBounds, lock_params: LockParameters) -> Result<
    (),
    Error,
> {
    if !(bounds.period_min <= lock_params.period <= bounds.period_max && bounds.divide_min
        <= lock_params.divide <= bounds.divide_max) {
        Err(Error::LockParamsOutOfBounds)
    } else if !lock_params.valid() {
        Err(Error::LockPeriodNotDivisible)
    } else {
        Ok(())
    }
}

/// Accepts lock parameters only within `bounds`, with `period` a multiple of
/// `divide`.
pub fn check_lock_params(bounds: &LockBounds, lock_params: LockParameters) -> (r: Result<
    (),
    Error,
>)
    ensures
        r == lock_params_verdict(*bounds, lock_params),
{
    if !(bounds.period_min <= lock_params.period && lock_params.period <= bounds.period_max
        && bounds.divide_min <= lock_params.divide && lock_params.divide <= bounds.divide_max) {
        return Err(Error::LockParamsOutOfBounds);
    }
    if lock_params.divide == 0 || lock_params.period % lock_params.divide != 0 {
        return Err(Error::LockPeriodNotDivisible);
    }
    Ok(())
}

} // verus!
