//! The schedule store: the reward and the mints in force, and the changes
//! queued for future blocks, keyed by the block that activates them.
use crate::locks::{has_key, keys_increasing};
use crate::{Error, Event};
use vstd::prelude::*;

verus! {

/// The reward and mints in force and the queued changes to them.
pub struct Schedule {
    pub reward: u128,
    pub reward_changes: Vec<(u64, u128)>,
    /// Per account, the amount minted to it each block.
    pub mints: Vec<(u64, u128)>,
    pub mint_changes: Vec<(u64, Vec<(u64, u128)>)>,
}

/// How many entries have come due at block `now`.
pub open spec fn due_count<V>(s: Seq<(u64, V)>, now: u64) -> nat
    decreases s.len(),
{
    if s.len() == 0 {
        0
    } else {
        due_count(s.drop_last(), now) + if s.last().0 <= now { 1nat } else { 0nat }
    }
}

/// Where the entries due at `now` are the first `i`, there are `i` of them.
pub proof fn lemma_due_count<V>(s: Seq<(u64, V)>, i: int, now: u64)
    requires
        0 <= i <= s.len(),
        forall|j: int| 0 <= j < i ==> s[j].0 <= now,
        forall|j: int| i <= j < s.len() ==> s[j].0 > now,
    ensures
        due_count(s, now) == i,
    decreases s.len(),
{
    if s.len() > 0 {
        if i < s.len() {
            lemma_due_count(s.drop_last(), i, now);
        } else {
            lemma_due_count(s.drop_last(), i - 1, now);
        }
    }
}

/// Advancing the schedule again at a block no later than the last advance
/// finds nothing due, since every queued change lies after that block; so
/// by the contract of `advance` it changes nothing and reports nothing.
pub proof fn lemma_advance_again<V>(queue: Seq<(u64, V)>, now: u64, again: u64)
    requires
        forall|j: int| 0 <= j < queue.len() ==> queue[j].0 > now,
        again <= now,
    ensures
        due_count(queue, again) == 0,
{
    lemma_due_count(queue, 0, again);
}

/// A copy of a list of entries.
pub fn copy_entries(v: &Vec<(u64, u128)>) -> (r: Vec<(u64, u128)>)
    ensures
        r@ == v@,
{
    let mut r: Vec<(u64, u128)> = Vec::new();
    let mut i: usize = 0;
    while i < v.len()
        invariant
            i <= v@.len(),
            r@ == v@.subrange(0, i as int),
        decreases v@.len() - i,
    {
        r.push(v[i]);
        i = i + 1;
        assert(r@ =~= v@.subrange(0, i as int));
    }
    assert(v@.subrange(0, v@.len() as int) =~= v@);
    r
}

/// The number of leading entries whose key is at most `now`.
fn count_due<V>(s: &Vec<(u64, V)>, now: u64) -> (n: usize)
    requires
        keys_increasing(s@),
    ensures
        n == due_count(s@, now),
        n <= s@.len(),
        forall|j: int| 0 <= j < n ==> s@[j].0 <= now,
        forall|j: int| n <= j < s@.len() ==> s@[j].0 > now,
{
    let mut i: usize = 0;
    while i < s.len() && s[i].0 <= now
        invariant
            i <= s@.len(),
            forall|j: int| 0 <= j < i ==> s@[j].0 <= now,
        decreases s@.len() - i,
    {
        i = i + 1;
    }
    assert forall|j: int| i <= j < s@.len() implies s@[j].0 > now by {
        if j > i {
            assert(s@[i as int].0 < s@[j].0);
        }
    }
    proof { lemma_due_count(s@, i as int, now); }
    i
}

/// The value given last for key `k` among `entries`, if any.
pub open spec fn last_given<V>(entries: Seq<(u64, V)>, k: u64) -> Option<V>
    decreases entries.len(),
{
    if entries.len() == 0 {
        None
    } else if entries.last().0 == k {
        Some(entries.last().1)
    } else {
        last_given(entries.drop_last(), k)
    }
}

/// The value stored at key `k`, if any.
pub open spec fn value_at<V>(s: Seq<(u64, V)>, k: u64) -> Option<V> {
    if has_key(s, k) {
        Some(s[choose|i: int| 0 <= i < s.len() && s[i].0 == k].1)
    } else {
        None
    }
}

proof fn lemma_value_at_index<V>(s: Seq<(u64, V)>, i: int)
    requires
        keys_increasing(s),
        0 <= i < s.len(),
    ensures
        value_at(s, s[i].0) == Some(s[i].1),
{
    let k = s[i].0;
    assert(has_key(s, k));
    let j = choose|j: int| 0 <= j < s.len() && s[j].0 == k;
    if j < i {
        assert(s[j].0 < s[i].0);
    } else if j > i {
        assert(s[i].0 < s[j].0);
    }
}

/// Stores `value` at `key`, replacing what was there, with the keys kept
/// in order.
fn upsert<V>(m: &mut Vec<(u64, V)>, key: u64, value: V)
    requires
        keys_increasing(old(m)@),
    ensures
        keys_increasing(final(m)@),
        forall|k: u64|
            #[trigger] value_at(final(m)@, k) == if k == key {
                Some(value)
            } else {
                value_at(old(m)@, k)
            },
{
    let ghost s = m@;
    let mut i: usize = 0;
    while i < m.len() && m[i].0 < key
        invariant
            m@ == s,
            i <= s.len(),
            forall|j: int| 0 <= j < i ==> s[j].0 < key,
        decreases s.len() - i,
    {
        i = i + 1;
    }
    if i < m.len() && m[i].0 == key {
        m.set(i, (key, value));
        let ghost t = m@;
        assert(keys_increasing(t));
        proof { lemma_value_at_index(t, i as int); }
        assert forall|k: u64| k != key implies #[trigger] value_at(t, k) == value_at(s, k) by {
            if has_key(s, k) {
                let j = choose|j: int| 0 <= j < s.len() && s[j].0 == k;
                lemma_value_at_index(s, j);
                lemma_value_at_index(t, j);
            } else {
                assert(!has_key(t, k)) by {
                    if has_key(t, k) {
                        let j = choose|j: int| 0 <= j < t.len() && t[j].0 == k;
                        assert(s[j].0 == k);
                    }
                }
            }
        }
    } else {
        m.insert(i, (key, value));
        let ghost t = m@;
        assert(keys_increasing(t)) by {
            assert forall|a: int, b: int| 0 <= a < b < t.len() implies t[a].0 < t[b].0 by {
                if b > i as int {
                    assert(t[b] == s[b - 1]);
                    if b - 1 > i as int {
                        assert(s[i as int].0 < s[b - 1].0);
                    }
                }
            }
        }
        proof { lemma_value_at_index(t, i as int); }
        assert forall|k: u64| k != key implies #[trigger] value_at(t, k) == value_at(s, k) by {
            if has_key(s, k) {
                let j = choose|j: int| 0 <= j < s.len() && s[j].0 == k;
                lemma_value_at_index(s, j);
                if j < i {
                    assert(t[j] == s[j]);
                    lemma_value_at_index(t, j);
                } else {
                    assert(t[j + 1] == s[j]);
                    lemma_value_at_index(t, j + 1);
                }
            } else {
                assert(!has_key(t, k)) by {
                    if has_key(t, k) {
                        let j = choose|j: int| 0 <= j < t.len() && t[j].0 == k;
                        if j < i {
                            assert(s[j].0 == k);
                        } else if j > i {
                            assert(s[j - 1].0 == k);
                        }
                    }
                }
            }
        }
    }
}

/// The entries as a key-ordered map; of two entries with one key the later
/// one wins.
pub fn to_key_map<V>(entries: Vec<(u64, V)>) -> (r: Vec<(u64, V)>)
    ensures
        keys_increasing(r@),
        forall|k: u64| #[trigger] value_at(r@, k) == last_given(entries@, k),
{
    let ghost orig = entries@;
    let mut rest = entries;
    let n: usize = rest.len();
    let mut r: Vec<(u64, V)> = Vec::new();
    let mut c: usize = 0;
    assert forall|k: u64| #[trigger] value_at(r@, k) == last_given(orig.subrange(0, 0), k) by {
        assert(!has_key(r@, k));
        assert(orig.subrange(0, 0).len() == 0);
    }
    while rest.len() > 0
        invariant
            c <= orig.len(),
            orig.len() == n,
            rest@ == orig.subrange(c as int, orig.len() as int),
            keys_increasing(r@),
            forall|k: u64| #[trigger] value_at(r@, k) == last_given(orig.subrange(0, c as int), k),
        decreases rest@.len(),
    {
        assert(rest@.len() == orig.len() - c);
        let (key, value) = rest.remove(0);
        assert(orig[c as int] == (key, value));
        let ghost before = r@;
        upsert(&mut r, key, value);
        assert(orig.subrange(0, c + 1).drop_last() =~= orig.subrange(0, c as int));
        c = c + 1;
        assert(rest@ =~= orig.subrange(c as int, orig.len() as int));
    }
    assert(orig.subrange(0, c as int) =~= orig);
    r
}

/// Whether every amount is at least `min`.
pub fn all_at_least(s: &Vec<(u64, u128)>, min: u128) -> (r: bool)
    ensures
        r == forall|i: int| 0 <= i < s@.len() ==> s@[i].1 >= min,
{
    let mut i: usize = 0;
    while i < s.len()
        invariant
            i <= s@.len(),
            forall|j: int| 0 <= j < i ==> s@[j].1 >= min,
        decreases s@.len() - i,
    {
        if s[i].1 < min {
            return false;
        }
        i = i + 1;
    }
    true
}

/// `v` is the key-ordered map of the entries `w`.
pub open spec fn is_map_of(v: Seq<(u64, u128)>, w: Seq<(u64, u128)>) -> bool {
    &&& keys_increasing(v)
    &&& forall|a: u64| #[trigger] value_at(v, a) == last_given(w, a)
}

/// Where each entry of `conv` has the key of the same entry of `orig` and
/// the map of its entries, so does what each gives last for a key.
proof fn lemma_last_given_maps(
    conv: Seq<(u64, Vec<(u64, u128)>)>,
    orig: Seq<(u64, Vec<(u64, u128)>)>,
    k: u64,
)
    requires
        conv.len() == orig.len(),
        forall|i: int|
            0 <= i < conv.len() ==> (#[trigger] conv[i]).0 == orig[i].0 && is_map_of(
                conv[i].1@,
                orig[i].1@,
            ),
    ensures
        last_given(conv, k) is Some <==> last_given(orig, k) is Some,
        last_given(conv, k) matches Some(v) ==> is_map_of(v@, last_given(orig, k)->0@),
    decreases conv.len(),
{
    if conv.len() > 0 {
        let n = conv.len() - 1;
        assert(is_map_of(conv[n].1@, orig[n].1@));
        let cd = conv.drop_last();
        let od = orig.drop_last();
        assert forall|i: int| 0 <= i < cd.len() implies (#[trigger] cd[i]).0 == od[i].0 && is_map_of(
            cd[i].1@,
            od[i].1@,
        ) by {
            assert(cd[i] == conv[i] && od[i] == orig[i]);
        }
        lemma_last_given_maps(cd, od, k);
    }
}

/// Whether every amount given is at least `min`.
pub open spec fn all_amounts_at_least(s: Seq<(u64, u128)>, min: u128) -> bool {
    forall|i: int| 0 <= i < s.len() ==> s[i].1 >= min
}

/// The verdict on the amounts of a schedule: the reward, the mints, the
/// reward changes and the mint changes are checked in that order.
pub open spec fn schedule_verdict(
    reward: u128,
    mints: Seq<(u64, u128)>,
    reward_changes: Seq<(u64, u128)>,
    mint_changes: Seq<(u64, Vec<(u64, u128)>)>,
    min: u128,
) -> Result<(), Error> {
    if reward < min {
        Err(Error::RewardTooLow)
    } else if !all_amounts_at_least(mints, min) {
        Err(Error::MintTooLow)
    } else if !all_amounts_at_least(reward_changes, min) {
        Err(Error::RewardTooLow)
    } else if !(forall|i: int|
        0 <= i < mint_changes.len() ==> all_amounts_at_least(#[trigger] mint_changes[i].1@, min)) {
        Err(Error::MintTooLow)
    } else {
        Ok(())
    }
}

impl Schedule {
    /// The queues and the mint map are ordered by key.
    pub open spec fn wf(&self) -> bool {
        &&& keys_increasing(self.reward_changes@)
        &&& keys_increasing(self.mint_changes@)
        &&& keys_increasing(self.mints@)
        &&& forall|j: int|
            0 <= j < self.mint_changes@.len() ==> keys_increasing(
                #[trigger] self.mint_changes@[j].1@,
            )
    }

    /// Applies, in block order, every queued change that is due at `now`,
    /// one event each, and drops them from the queues.
    pub fn advance(&mut self, now: u64) -> (events: Vec<Event>)
        requires
            old(self).wf(),
        ensures
            final(self).wf(),
            ({
                let rc = old(self).reward_changes@;
                let mc = old(self).mint_changes@;
                let rn = due_count(rc, now) as int;
                let mn = due_count(mc, now) as int;
                &&& final(self).reward_changes@ == rc.subrange(rn, rc.len() as int)
                &&& final(self).mint_changes@ == mc.subrange(mn, mc.len() as int)
                &&& final(self).reward == if rn == 0 {
                    old(self).reward
                } else {
                    rc[rn - 1].1
                }
                &&& final(self).mints@ == if mn == 0 {
                    old(self).mints@
                } else {
                    mc[mn - 1].1@
                }
                &&& events@.len() == rn + mn
                &&& forall|i: int|
                    0 <= i < rn ==> #[trigger] events@[i] == Event::RewardChanged(rc[i].1)
                &&& forall|i: int|
                    0 <= i < mn ==> (#[trigger] events@[rn + i] matches Event::MintsChanged(m)
                        && m@ == mc[i].1@)
            }),
            forall|j: int|
                0 <= j < final(self).reward_changes@.len() ==> final(self).reward_changes@[j].0
                    > now,
            forall|j: int|
                0 <= j < final(self).mint_changes@.len() ==> final(self).mint_changes@[j].0 > now,
            due_count(old(self).reward_changes@, now) == 0 && due_count(
                old(self).mint_changes@,
                now,
            ) == 0 ==> {
                &&& events@.len() == 0
                &&& final(self).reward == old(self).reward
                &&& final(self).reward_changes@ == old(self).reward_changes@
                &&& final(self).mints@ == old(self).mints@
                &&& final(self).mint_changes@ == old(self).mint_changes@
            },
    {
        let mut events: Vec<Event> = Vec::new();
        let ghost rc = self.reward_changes@;
        let ghost mc = self.mint_changes@;
        let ghost old_mints = self.mints@;
        let rn = count_due(&self.reward_changes, now);
        let mut i: usize = 0;
        while i < rn
            invariant
                rn <= rc.len(),
                self.reward_changes@ == rc,
                self.mint_changes@ == mc,
                self.mints@ == old_mints,
                keys_increasing(mc),
                i <= rn,
                events@.len() == i,
                self.reward == if i == 0 {
                    old(self).reward
                } else {
                    rc[i - 1].1
                },
                forall|j: int| 0 <= j < i ==> #[trigger] events@[j] == Event::RewardChanged(rc[j].1),
            decreases rn - i,
        {
            let reward = self.reward_changes[i].1;
            self.reward = reward;
            events.push(Event::RewardChanged(reward));
            i = i + 1;
        }
        let rest = self.reward_changes.split_off(rn);
        self.reward_changes = rest;

        let mn = count_due(&self.mint_changes, now);
        let mut k: usize = 0;
        while k < mn
            invariant
                mn <= mc.len(),
                rn <= rc.len(),
                self.reward == if rn == 0 {
                    old(self).reward
                } else {
                    rc[rn - 1].1
                },
                self.mint_changes@ == mc,
                self.reward_changes@ == rc.subrange(rn as int, rc.len() as int),
                k <= mn,
                events@.len() == rn + k,
                self.mints@ == if k == 0 {
                    old_mints
                } else {
                    mc[k - 1].1@
                },
                forall|j: int| 0 <= j < rn ==> #[trigger] events@[j] == Event::RewardChanged(rc[j].1),
                forall|j: int|
                    0 <= j < k ==> (#[trigger] events@[rn + j] matches Event::MintsChanged(m)
                        && m@ == mc[j].1@),
            decreases mn - k,
        {
            self.mints = copy_entries(&self.mint_changes[k].1);
            let notice = copy_entries(&self.mint_changes[k].1);
            events.push(Event::MintsChanged(notice));
            assert(events@[rn + k as int] matches Event::MintsChanged(m) && m@ == mc[k as int].1@);
            k = k + 1;
        }
        let rest = self.mint_changes.split_off(mn);
        self.mint_changes = rest;
        assert(forall|j: int|
            0 <= j < self.mint_changes@.len() ==> #[trigger] self.mint_changes@[j] == mc[mn + j]);
        assert(rc.subrange(0, rc.len() as int) =~= rc);
        assert(mc.subrange(0, mc.len() as int) =~= mc);
        events
    }
    /// A schedule from lists of entries, where every amount is at least
    /// `minimum_balance`; of two entries with one key the later one wins.
    pub fn build(
        reward: u128,
        mints: Vec<(u64, u128)>,
        reward_changes: Vec<(u64, u128)>,
        mint_changes: Vec<(u64, Vec<(u64, u128)>)>,
        minimum_balance: u128,
    ) -> (r: Result<Schedule, Error>)
        ensures
            match schedule_verdict(
                reward,
                mints@,
                reward_changes@,
                mint_changes@,
                minimum_balance,
            ) {
                Err(e) => r == Err::<Schedule, Error>(e),
                Ok(_) => r matches Ok(t) && {
                    &&& t.wf()
                    &&& t.reward == reward
                    &&& is_map_of(t.mints@, mints@)
                    &&& is_map_of(t.reward_changes@, reward_changes@)
                    &&& forall|k: u64| #[trigger]
                        value_at(t.mint_changes@, k) is Some <==> last_given(mint_changes@, k) is Some
                    &&& forall|k: u64|
                        #[trigger] value_at(t.mint_changes@, k) matches Some(v) ==> is_map_of(
                            v@,
                            last_given(mint_changes@, k)->0@,
                        )
                },
            },
    {
        if reward < minimum_balance {
            return Err(Error::RewardTooLow);
        }
        if !all_at_least(&mints, minimum_balance) {
            return Err(Error::MintTooLow);
        }
        if !all_at_least(&reward_changes, minimum_balance) {
            return Err(Error::RewardTooLow);
        }
        let mut i: usize = 0;
        while i < mint_changes.len()
            invariant
                i <= mint_changes@.len(),
                reward >= minimum_balance,
                all_amounts_at_least(mints@, minimum_balance),
                all_amounts_at_least(reward_changes@, minimum_balance),
                forall|j: int|
                    0 <= j < i ==> all_amounts_at_least(#[trigger] mint_changes@[j].1@, minimum_balance),
            decreases mint_changes@.len() - i,
        {
            if !all_at_least(&mint_changes[i].1, minimum_balance) {
                assert(!all_amounts_at_least(mint_changes@[i as int].1@, minimum_balance));
                assert(!(forall|j: int|
                    0 <= j < mint_changes@.len() ==> all_amounts_at_least(
                        #[trigger] mint_changes@[j].1@,
                        minimum_balance,
                    )));
                return Err(Error::MintTooLow);
            }
            i = i + 1;
        }
        let ghost orig = mint_changes@;
        let n: usize = mint_changes.len();
        let mut rest = mint_changes;
        let mut converted: Vec<(u64, Vec<(u64, u128)>)> = Vec::new();
        let mut c: usize = 0;
        while rest.len() > 0
            invariant
                c <= orig.len(),
                orig.len() == n,
                rest@ == orig.subrange(c as int, orig.len() as int),
                converted@.len() == c,
                forall|j: int|
                    0 <= j < c ==> (#[trigger] converted@[j]).0 == orig[j].0 && is_map_of(
                        converted@[j].1@,
                        orig[j].1@,
                    ),
            decreases rest@.len(),
        {
            assert(rest@.len() == orig.len() - c);
            let (key, entries) = rest.remove(0);
            assert(orig[c as int] == (key, entries));
            let map = to_key_map(entries);
            assert(is_map_of(map@, orig[c as int].1@));
            converted.push((key, map));
            c = c + 1;
            assert(rest@ =~= orig.subrange(c as int, orig.len() as int));
        }
        let ghost conv = converted@;
        let mint_map = to_key_map(converted);
        let t = Schedule {
            reward,
            reward_changes: to_key_map(reward_changes),
            mints: to_key_map(mints),
            mint_changes: mint_map,
        };
        proof {
            assert forall|k: u64| #[trigger]
                value_at(t.mint_changes@, k) is Some <==> last_given(orig, k) is Some by {
                lemma_last_given_maps(conv, orig, k);
            }
            assert forall|k: u64|
                #[trigger] value_at(t.mint_changes@, k) is Some implies is_map_of(
                    value_at(t.mint_changes@, k)->0@,
                    last_given(orig, k)->0@,
                ) by {
                lemma_last_given_maps(conv, orig, k);
            }
            assert forall|j: int| 0 <= j < t.mint_changes@.len() implies keys_increasing(
                #[trigger] t.mint_changes@[j].1@,
            ) by {
                let k = t.mint_changes@[j].0;
                lemma_value_at_index(t.mint_changes@, j);
                lemma_last_given_maps(conv, orig, k);
            }
        }
        Ok(t)
    }
}

} // verus!
