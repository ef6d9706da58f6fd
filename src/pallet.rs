//! The engine run once per block, its lock ledger, and the administrative
//! changes to its settings. Currency work is handed out as effects.
use crate::arith::PERCENT_ONE;
use crate::arith::saturate;
use crate::distribute::{distribute, is_distribution, Distribution, PoolStat};
use crate::locks::{
    has_key, lemma_unexpired_all_after,
    check_lock_params, keys_increasing, lemma_locked_at_unexpired, lemma_unexpired, locked_at,
    lock_params_verdict, merge_locks, settle, total_of, unexpired, CurrencyLock,
    GenerateRewardLocks, LockBounds, LockParameters,
};
use crate::schedule::{
    copy_entries, due_count, is_map_of, last_given, schedule_verdict, value_at, Schedule,
};
use crate::{Error, Event};
use std::collections::HashMap;
use vstd::prelude::*;

verus! {

broadcast use vstd::std_specs::hash::group_hash_axioms;

/// The settings that the engine is built with.
pub struct Config {
    /// The miner's percent of a block reward where no override is set.
    pub miner_rewards_percent: u8,
    /// The pool production rate, in percent, above which a pool is slashed.
    pub mining_pool_max_rate: u8,
    /// The bounds for lock parameters.
    pub lock_parameters_bounds: LockBounds,
    /// The smallest amount a reward or mint may be.
    pub minimum_balance: u128,
    /// Where slashed amounts go.
    pub treasury: u64,
}

impl Config {
    pub open spec fn wf(&self) -> bool {
        &&& self.miner_rewards_percent <= PERCENT_ONE
        &&& self.mining_pool_max_rate <= PERCENT_ONE
    }
}

/// A change of balances that the currency carries out.
#[derive(Clone, Copy, PartialEq, Eq, Debug, Structural)]
pub enum Effect {
    /// New balance for an account.
    Deposit(u64, u128),
    /// The account's reward lock changes.
    Lock(u64, CurrencyLock),
}

/// The deposits among `effects`, in order.
pub open spec fn deposits_of(effects: Seq<Effect>) -> Seq<(u64, u128)>
    decreases effects.len(),
{
    if effects.len() == 0 {
        Seq::empty()
    } else {
        let rest = deposits_of(effects.drop_last());
        match effects.last() {
            Effect::Deposit(a, x) => rest.push((a, x)),
            Effect::Lock(_, _) => rest,
        }
    }
}

/// The deposits of one reward split, in the order they are made: the slash
/// for the treasury where there is one, each pool member, the author,
/// then each validator.
pub open spec fn payouts(d: Distribution, author: u64, treasury: u64, validators: Seq<u64>) -> Seq<
    (u64, u128),
> {
    (if d.slash > 0 {
        seq![(treasury, d.slash)]
    } else {
        Seq::empty()
    }) + d.member_payouts@ + seq![(author, d.author_payout)] + validators.map_values(
        |v: u64| (v, d.per_validator),
    )
}

/// Whether a reward split pays `a` through the lock ledger: as a pool
/// member, as the author or as a validator.
pub open spec fn rewarded(d: Distribution, author: u64, validators: Seq<u64>, a: u64) -> bool {
    ||| a == author
    ||| validators.contains(a)
    ||| exists|i: int| 0 <= i < d.member_payouts@.len() && d.member_payouts@[i].0 == a
}

/// The balance at block `k` after a lock schedule `g` is folded into
/// `locks` at block `now`, as `pay_into_locks` states it.
pub open spec fn folded_at(locks: Seq<(u64, u128)>, g: Seq<(u64, u128)>, now: u64, k: u64) -> nat {
    if k > now {
        saturate(locked_at(locks, k) + locked_at(g, k))
    } else {
        0
    }
}

/// Two payouts into one account at one block leave the same balance at
/// every unlock block, whichever is paid first: each folds in the schedule
/// that the policy draws for its amount.
pub proof fn lemma_payouts_commute<G: GenerateRewardLocks>(
    start: Seq<(u64, u128)>,
    now: u64,
    lock_params: Option<LockParameters>,
    r1: u128,
    r2: u128,
    after_1: Seq<(u64, u128)>,
    after_12: Seq<(u64, u128)>,
    after_2: Seq<(u64, u128)>,
    after_21: Seq<(u64, u128)>,
)
    requires
        forall|k: u64|
            #[trigger] locked_at(after_1, k) == folded_at(
                start,
                G::schedule_of(now, r1, lock_params),
                now,
                k,
            ),
        forall|k: u64|
            #[trigger] locked_at(after_12, k) == folded_at(
                after_1,
                G::schedule_of(now, r2, lock_params),
                now,
                k,
            ),
        forall|k: u64|
            #[trigger] locked_at(after_2, k) == folded_at(
                start,
                G::schedule_of(now, r2, lock_params),
                now,
                k,
            ),
        forall|k: u64|
            #[trigger] locked_at(after_21, k) == folded_at(
                after_2,
                G::schedule_of(now, r1, lock_params),
                now,
                k,
            ),
    ensures
        forall|k: u64| #[trigger] locked_at(after_12, k) == locked_at(after_21, k),
{
    assert forall|k: u64| #[trigger] locked_at(after_12, k) == locked_at(after_21, k) by {
        assert(locked_at(after_1, k) == folded_at(start, G::schedule_of(now, r1, lock_params), now, k));
        assert(locked_at(after_2, k) == folded_at(start, G::schedule_of(now, r2, lock_params), now, k));
    }
}

/// The engine's state.
pub struct Pallet {
    /// The author of the block being processed.
    pub author: Option<u64>,
    pub schedule: Schedule,
    /// Per account, its locks in increasing unlock order.
    pub reward_locks: HashMap<u64, Vec<(u64, u128)>>,
    pub lock_params: Option<LockParameters>,
    /// The miner's percent, where it overrides the configured one.
    pub miner_share: Option<u8>,
}

impl Pallet {
    pub open spec fn wf(&self) -> bool {
        &&& self.schedule.wf()
        &&& forall|a: u64| #[trigger]
            self.reward_locks@.contains_key(a) ==> keys_increasing(self.reward_locks@[a]@)
        &&& self.miner_share matches Some(p) ==> p <= PERCENT_ONE
    }

    /// The locks recorded for an account; none where it has none.
    pub open spec fn locks_of(&self, account: u64) -> Seq<(u64, u128)> {
        if self.reward_locks@.contains_key(account) {
            self.reward_locks@[account]@
        } else {
            Seq::empty()
        }
    }

    /// All but the lock ledger is as in `other`.
    pub open spec fn same_settings(&self, other: &Pallet) -> bool {
        &&& self.author == other.author
        &&& self.schedule == other.schedule
        &&& self.lock_params == other.lock_params
        &&& self.miner_share == other.miner_share
    }

    /// The miner's percent in force.
    pub open spec fn miner_share_in_force(&self, config: &Config) -> u8 {
        match self.miner_share {
            Some(p) => p,
            None => config.miner_rewards_percent,
        }
    }

    /// An engine with the given schedule, no locks and no overrides.
    pub fn new(schedule: Schedule) -> (r: Pallet)
        requires
            schedule.wf(),
        ensures
            r.wf(),
            r.author is None,
            r.schedule == schedule,
            r.reward_locks@ == Map::<u64, Vec<(u64, u128)>>::empty(),
            r.lock_params is None,
            r.miner_share is None,
    {
        Pallet {
            author: None,
            schedule,
            reward_locks: HashMap::new(),
            lock_params: None,
            miner_share: None,
        }
    }

    /// Takes an account's locks out of the ledger.
    fn take_locks(&mut self, account: u64) -> (r: Vec<(u64, u128)>)
        requires
            old(self).wf(),
        ensures
            final(self).wf(),
            final(self).same_settings(old(self)),
            r@ == old(self).locks_of(account),
            keys_increasing(r@),
            final(self).reward_locks@ == old(self).reward_locks@.remove(account),
    {
        match self.reward_locks.remove(&account) {
            Some(v) => v,
            None => Vec::new(),
        }
    }

    /// Stores an account's locks without the expired ones, or with none at
    /// all when `force` is set, and records what its currency lock becomes.
    pub fn update_reward_locks(
        &mut self,
        account: u64,
        locks: Vec<(u64, u128)>,
        current_block: u64,
        force: bool,
        effects: &mut Vec<Effect>,
    )
        requires
            old(self).wf(),
            keys_increasing(locks@),
        ensures
            final(self).wf(),
            final(self).same_settings(old(self)),
            final(self).reward_locks@.contains_key(account),
            final(self).reward_locks@ == old(self).reward_locks@.insert(
                account,
                final(self).reward_locks@[account],
            ),
            final(self).locks_of(account) == if force {
                Seq::<(u64, u128)>::empty()
            } else {
                unexpired(locks@, current_block)
            },
            final(effects)@ == old(effects)@.push(
                Effect::Lock(
                    account,
                    if force {
                        CurrencyLock::Removed
                    } else {
                        CurrencyLock::LockedTo(
                            saturate(total_of(unexpired(locks@, current_block))) as u128,
                        )
                    },
                ),
            ),
    {
        let (kept, lock) = settle(locks, current_block, force);
        effects.push(Effect::Lock(account, lock));
        self.reward_locks.insert(account, kept);
    }

    /// Releases the caller's expired locks.
    pub fn unlock(&mut self, account: u64, current_block: u64, effects: &mut Vec<Effect>)
        requires
            old(self).wf(),
        ensures
            final(self).wf(),
            final(self).same_settings(old(self)),
            final(self).locks_of(account) == unexpired(old(self).locks_of(account), current_block),
            forall|a: u64| a != account ==> final(self).locks_of(a) == old(self).locks_of(a),
            final(effects)@ == old(effects)@.push(
                Effect::Lock(
                    account,
                    CurrencyLock::LockedTo(
                        saturate(
                            total_of(unexpired(old(self).locks_of(account), current_block)),
                        ) as u128,
                    ),
                ),
            ),
    {
        let locks = self.take_locks(account);
        self.update_reward_locks(account, locks, current_block, false, effects);
    }

    /// Clears all of an account's locks, whatever their unlock block.
    pub fn force_unlock(&mut self, account: u64, current_block: u64, effects: &mut Vec<Effect>)
        requires
            old(self).wf(),
        ensures
            final(self).wf(),
            final(self).same_settings(old(self)),
            final(self).locks_of(account) == Seq::<(u64, u128)>::empty(),
            forall|a: u64| a != account ==> final(self).locks_of(a) == old(self).locks_of(a),
            final(effects)@ == old(effects)@.push(Effect::Lock(account, CurrencyLock::Removed)),
    {
        let locks = self.take_locks(account);
        self.update_reward_locks(account, locks, current_block, true, effects);
    }

    /// The balance of an account that is still locked at `current_block`.
    pub fn locks(&self, account: u64, current_block: u64) -> (r: u128)
        ensures
            r == saturate(total_of(unexpired(self.locks_of(account), current_block))),
    {
        match self.reward_locks.get(&account) {
            None => 0,
            Some(v) => {
                let (_, lock) = settle(copy_entries(v), current_block, false);
                match lock {
                    CurrencyLock::LockedTo(total) => total,
                    CurrencyLock::Removed => 0,
                }
            },
        }
    }
    /// Folds a lock schedule whose unlocks all lie after `current_block`
    /// into an account's locks: the expired entries are dropped, the
    /// balances at each unlock block added (saturating), and the account's
    /// currency lock set to the total. An empty schedule changes nothing.
    pub fn pay_into_locks(
        &mut self,
        account: u64,
        generated: &Vec<(u64, u128)>,
        current_block: u64,
        effects: &mut Vec<Effect>,
    )
        requires
            old(self).wf(),
            keys_increasing(generated@),
            forall|j: int| 0 <= j < generated@.len() ==> generated@[j].0 > current_block,
        ensures
            final(self).wf(),
            final(self).same_settings(old(self)),
            forall|a: u64| a != account ==> final(self).locks_of(a) == old(self).locks_of(a),
            generated@.len() == 0 ==> final(self).reward_locks@ == old(self).reward_locks@
                && final(effects)@ == old(effects)@,
            generated@.len() > 0 ==> {
                &&& forall|k: u64|
                    #[trigger] locked_at(final(self).locks_of(account), k) == folded_at(
                        old(self).locks_of(account),
                        generated@,
                        current_block,
                        k,
                    )
                &&& forall|j: int|
                    0 <= j < final(self).locks_of(account).len() ==> final(self).locks_of(
                        account,
                    )[j].0 > current_block
                &&& (forall|k: u64| #[trigger]
                    locked_at(generated@, k) + locked_at(old(self).locks_of(account), k)
                        <= u128::MAX) ==> total_of(final(self).locks_of(account)) == total_of(
                    unexpired(old(self).locks_of(account), current_block),
                ) + total_of(generated@)
                &&& final(effects)@ == old(effects)@.push(
                    Effect::Lock(
                        account,
                        CurrencyLock::LockedTo(
                            saturate(total_of(final(self).locks_of(account))) as u128,
                        ),
                    ),
                )
            },
    {
        if generated.len() > 0 {
            let locks = self.take_locks(account);
            let ghost old_locks = locks@;
            let (mut kept, _) = settle(locks, current_block, false);
            let ghost unexp = kept@;
            proof {
                lemma_locked_at_unexpired(old_locks, current_block);
                assert forall|k: u64| k <= current_block implies #[trigger] locked_at(
                    generated@,
                    k,
                ) == 0 by {
                    if has_key(generated@, k) {
                        let j = choose|j: int| 0 <= j < generated@.len() && generated@[j].0 == k;
                    }
                }
            }
            merge_locks(&mut kept, generated);
            proof {
                assert forall|j: int| 0 <= j < kept@.len() implies #[trigger] kept@[j].0
                    > current_block by {
                    if has_key(unexp, kept@[j].0) {
                        let q = choose|q: int| 0 <= q < unexp.len() && unexp[q].0 == kept@[j].0;
                    } else {
                        let q = choose|q: int|
                            0 <= q < generated@.len() && generated@[q].0 == kept@[j].0;
                    }
                }
                lemma_unexpired_all_after(kept@, current_block);
            }
            self.update_reward_locks(account, kept, current_block, false, effects);
        }
    }

    /// Pays `reward` to an account: deposits it, then folds the schedule
    /// that the lock policy draws for it into the account's locks, which
    /// it returns.
    pub fn do_reward_per_account<G: GenerateRewardLocks>(
        &mut self,
        account: u64,
        reward: u128,
        current_block: u64,
        effects: &mut Vec<Effect>,
    ) -> (generated: Vec<(u64, u128)>)
        requires
            old(self).wf(),
        ensures
            final(self).wf(),
            final(self).same_settings(old(self)),
            generated@ == G::schedule_of(current_block, reward, old(self).lock_params),
            keys_increasing(generated@),
            forall|j: int| 0 <= j < generated@.len() ==> generated@[j].0 > current_block,
            old(self).lock_params is None ==> generated@.len() == 0,
            old(self).lock_params matches Some(p) && p.valid() && current_block <= u64::MAX
                - u16::MAX ==> total_of(generated@) == reward,
            deposits_of(final(effects)@) == deposits_of(old(effects)@).push((account, reward)),
            forall|a: u64| a != account ==> final(self).locks_of(a) == old(self).locks_of(a),
            generated@.len() == 0 ==> final(self).reward_locks@ == old(self).reward_locks@
                && final(effects)@ == old(effects)@.push(Effect::Deposit(account, reward)),
            old(self).lock_params matches Some(p) && p.valid() && current_block <= u64::MAX
                - u16::MAX && reward > 0 && (forall|k: u64| #[trigger]
                locked_at(generated@, k) + locked_at(old(self).locks_of(account), k)
                    <= u128::MAX) ==> {
                &&& unexpired(final(self).locks_of(account), current_block)
                    == final(self).locks_of(account)
                &&& total_of(final(self).locks_of(account)) == total_of(
                    unexpired(old(self).locks_of(account), current_block),
                ) + reward
            },
            generated@.len() > 0 ==> {
                &&& forall|k: u64|
                    #[trigger] locked_at(final(self).locks_of(account), k) == folded_at(
                        old(self).locks_of(account),
                        generated@,
                        current_block,
                        k,
                    )
                &&& forall|j: int|
                    0 <= j < final(self).locks_of(account).len() ==> final(self).locks_of(
                        account,
                    )[j].0 > current_block
                &&& (forall|k: u64| #[trigger]
                    locked_at(generated@, k) + locked_at(old(self).locks_of(account), k)
                        <= u128::MAX) ==> total_of(final(self).locks_of(account)) == total_of(
                    unexpired(old(self).locks_of(account), current_block),
                ) + total_of(generated@)
                &&& final(effects)@ == old(effects)@.push(Effect::Deposit(account, reward)).push(
                    Effect::Lock(
                        account,
                        CurrencyLock::LockedTo(
                            saturate(total_of(final(self).locks_of(account))) as u128,
                        ),
                    ),
                )
            },
    {
        let generated = G::generate_reward_locks(current_block, reward, self.lock_params);
        effects.push(Effect::Deposit(account, reward));
        assert(effects@.drop_last() =~= old(effects)@);
        assert(deposits_of(effects@) == deposits_of(old(effects)@).push((account, reward)));
        let ghost mid = effects@;
        self.pay_into_locks(account, &generated, current_block, effects);
        proof {
            if generated@.len() > 0 {
                lemma_unexpired_all_after(self.locks_of(account), current_block);
            } else if old(self).lock_params is Some && old(self).lock_params->0.valid()
                && current_block <= u64::MAX - u16::MAX {
                assert(total_of(generated@) == 0);
            }
        }
        if generated.len() > 0 {
            assert(effects@.drop_last() =~= mid);
            assert(effects@.last() is Lock);
            assert(deposits_of(effects@) == deposits_of(mid));
        }
        generated
    }

    /// Splits `reward` for the block's `author` and pays every part out:
    /// the slash to the treasury, the pool members, the author and each
    /// validator, in that order.
    pub fn do_reward<G: GenerateRewardLocks>(
        &mut self,
        author: u64,
        reward: u128,
        current_block: u64,
        validators: &Vec<u64>,
        pool: &Option<PoolStat>,
        config: &Config,
        effects: &mut Vec<Effect>,
        events: &mut Vec<Event>,
    ) -> (d: Distribution)
        requires
            old(self).wf(),
            config.wf(),
            pool matches Some(p) ==> p.wf(),
        ensures
            final(self).wf(),
            old(self).lock_params is None ==> final(self).reward_locks@ == old(self).reward_locks@,
            forall|i: int|
                old(effects)@.len() <= i < final(effects)@.len()
                    ==> (#[trigger] final(effects)@[i] matches Effect::Lock(x, l)
                    ==> rewarded(d, author, validators@, x) && l is LockedTo),
            forall|a: u64|
                !rewarded(d, author, validators@, a) ==> final(self).locks_of(a) == old(
                    self,
                ).locks_of(a),
            final(self).same_settings(old(self)),
            is_distribution(
                d,
                reward,
                old(self).miner_share_in_force(config),
                config.mining_pool_max_rate,
                *pool,
                validators@.len() as u64,
            ),
            deposits_of(final(effects)@) == deposits_of(old(effects)@) + payouts(
                d,
                author,
                config.treasury,
                validators@,
            ),
            final(events)@ == old(events)@ + if d.slash > 0 {
                seq![Event::PoolExceedsLimit(author, d.slash)]
            } else {
                Seq::empty()
            },
    {
        let miner_share = match self.miner_share {
            Some(p) => p,
            None => config.miner_rewards_percent,
        };
        let d = distribute(
            reward,
            miner_share,
            config.mining_pool_max_rate,
            pool,
            validators.len() as u64,
        );
        let ghost start = self.same_settings(old(self));
        let ghost base = deposits_of(effects@);
        if d.slash > 0 {
            effects.push(Effect::Deposit(config.treasury, d.slash));
            assert(effects@.drop_last() =~= old(effects)@);
            events.push(Event::PoolExceedsLimit(author, d.slash));
        }
        assert(events@ =~= old(events)@ + if d.slash > 0 {
            seq![Event::PoolExceedsLimit(author, d.slash)]
        } else {
            Seq::empty()
        });
        let ghost head = deposits_of(effects@);
        let mut i: usize = 0;
        while i < d.member_payouts.len()
            invariant
                self.wf(),
                self.same_settings(old(self)),
                old(self).lock_params is None ==> self.reward_locks@ == old(self).reward_locks@,
                old(effects)@.len() <= effects@.len(),
                forall|q: int|
                    old(effects)@.len() <= q < effects@.len() ==> (#[trigger] effects@[q] matches Effect::Lock(
                        x,
                        l,
                    ) ==> rewarded(d, author, validators@, x) && l is LockedTo),
                forall|a: u64|
                    !rewarded(d, author, validators@, a) ==> self.locks_of(a) == old(self).locks_of(
                        a,
                    ),
                i <= d.member_payouts@.len(),
                deposits_of(effects@) == head + d.member_payouts@.subrange(0, i as int),
            decreases d.member_payouts@.len() - i,
        {
            let (member, amount) = d.member_payouts[i];
            assert(rewarded(d, author, validators@, member)) by {
                assert(d.member_payouts@[i as int].0 == member);
            }
            let _ = self.do_reward_per_account::<G>(member, amount, current_block, effects);
            i = i + 1;
            assert(d.member_payouts@.subrange(0, i as int) =~= d.member_payouts@.subrange(
                0,
                i - 1,
            ).push((member, amount)));
        }
        assert(d.member_payouts@.subrange(0, d.member_payouts@.len() as int) =~= d.member_payouts@);
        let _ = self.do_reward_per_account::<G>(author, d.author_payout, current_block, effects);
        let ghost mid = deposits_of(effects@);
        let ghost vals = validators@.map_values(|v: u64| (v, d.per_validator));
        let mut k: usize = 0;
        while k < validators.len()
            invariant
                self.wf(),
                self.same_settings(old(self)),
                old(self).lock_params is None ==> self.reward_locks@ == old(self).reward_locks@,
                old(effects)@.len() <= effects@.len(),
                forall|q: int|
                    old(effects)@.len() <= q < effects@.len() ==> (#[trigger] effects@[q] matches Effect::Lock(
                        x,
                        l,
                    ) ==> rewarded(d, author, validators@, x) && l is LockedTo),
                forall|a: u64|
                    !rewarded(d, author, validators@, a) ==> self.locks_of(a) == old(self).locks_of(
                        a,
                    ),
                k <= validators@.len(),
                vals == validators@.map_values(|v: u64| (v, d.per_validator)),
                deposits_of(effects@) == mid + vals.subrange(0, k as int),
            decreases validators@.len() - k,
        {
            let val = validators[k];
            assert(validators@.contains(val)) by {
                assert(validators@[k as int] == val);
            }
            let _ = self.do_reward_per_account::<G>(val, d.per_validator, current_block, effects);
            k = k + 1;
            assert(vals.subrange(0, k as int) =~= vals.subrange(0, k - 1).push((val, d.per_validator)));
        }
        assert(vals.subrange(0, validators@.len() as int) =~= vals);
        assert(deposits_of(effects@) =~= base + payouts(d, author, config.treasury, validators@));
        d
    }

    /// Deposits each account's mint, in order, and does nothing else.
    pub fn do_mints(mints: &Vec<(u64, u128)>, effects: &mut Vec<Effect>)
        ensures
            final(effects)@ == old(effects)@ + mints@.map_values(
                |e: (u64, u128)| Effect::Deposit(e.0, e.1),
            ),
            deposits_of(final(effects)@) == deposits_of(old(effects)@) + mints@,
    {
        let ghost dep = mints@.map_values(|e: (u64, u128)| Effect::Deposit(e.0, e.1));
        let mut i: usize = 0;
        while i < mints.len()
            invariant
                i <= mints@.len(),
                dep == mints@.map_values(|e: (u64, u128)| Effect::Deposit(e.0, e.1)),
                effects@ == old(effects)@ + dep.subrange(0, i as int),
                deposits_of(effects@) == deposits_of(old(effects)@) + mints@.subrange(0, i as int),
            decreases mints@.len() - i,
        {
            let ghost before = effects@;
            let (destination, mint) = mints[i];
            effects.push(Effect::Deposit(destination, mint));
            assert(effects@.drop_last() =~= before);
            i = i + 1;
            assert(mints@.subrange(0, i as int) =~= mints@.subrange(0, i - 1).push((destination, mint)));
            assert(dep.subrange(0, i as int) =~= dep.subrange(0, i - 1).push(
                Effect::Deposit(destination, mint),
            ));
            assert(effects@ =~= old(effects)@ + dep.subrange(0, i as int));
        }
        assert(mints@.subrange(0, mints@.len() as int) =~= mints@);
        assert(dep.subrange(0, mints@.len() as int) =~= dep);
    }

    /// Starts a block: records its author, if one was found, puts the
    /// reward of the curve in force, and applies the schedule changes due.
    pub fn on_initialize(&mut self, now: u64, author: Option<u64>, curve_reward: u128) -> (events:
        Vec<Event>)
        requires
            old(self).wf(),
        ensures
            final(self).wf(),
            final(self).author == if author is Some {
                author
            } else {
                old(self).author
            },
            final(self).reward_locks@ == old(self).reward_locks@,
            final(self).lock_params == old(self).lock_params,
            final(self).miner_share == old(self).miner_share,
            ({
                let rc = old(self).schedule.reward_changes@;
                let mc = old(self).schedule.mint_changes@;
                let rn = due_count(rc, now) as int;
                let mn = due_count(mc, now) as int;
                &&& final(self).schedule.reward == if rn == 0 {
                    curve_reward
                } else {
                    rc[rn - 1].1
                }
                &&& final(self).schedule.reward_changes@ == rc.subrange(rn, rc.len() as int)
                &&& final(self).schedule.mint_changes@ == mc.subrange(mn, mc.len() as int)
                &&& final(self).schedule.mints@ == if mn == 0 {
                    old(self).schedule.mints@
                } else {
                    mc[mn - 1].1@
                }
                &&& events@.len() == rn + mn
                &&& forall|i: int|
                    0 <= i < rn ==> #[trigger] events@[i] == Event::RewardChanged(rc[i].1)
                &&& forall|i: int|
                    0 <= i < mn ==> (#[trigger] events@[rn + i] matches Event::MintsChanged(m)
                        && m@ == mc[i].1@)
            }),
            forall|j: int|
                0 <= j < final(self).schedule.reward_changes@.len()
                    ==> final(self).schedule.reward_changes@[j].0 > now,
            forall|j: int|
                0 <= j < final(self).schedule.mint_changes@.len()
                    ==> final(self).schedule.mint_changes@[j].0 > now,
    {
        if author.is_some() {
            self.author = author;
        }
        self.schedule.reward = curve_reward;
        self.schedule.advance(now)
    }

    /// Ends a block: splits the reward in force for the recorded author, if
    /// any, pays every mint, and forgets the author.
    pub fn on_finalize<G: GenerateRewardLocks>(
        &mut self,
        now: u64,
        validators: &Vec<u64>,
        pool: &Option<PoolStat>,
        config: &Config,
        effects: &mut Vec<Effect>,
        events: &mut Vec<Event>,
    ) -> (r: Option<Distribution>)
        requires
            old(self).wf(),
            config.wf(),
            pool matches Some(p) ==> p.wf(),
        ensures
            final(self).wf(),
            old(self).lock_params is None ==> final(self).reward_locks@ == old(self).reward_locks@,
            final(self).author is None,
            final(self).schedule == old(self).schedule,
            final(self).lock_params == old(self).lock_params,
            final(self).miner_share == old(self).miner_share,
            match old(self).author {
                Some(a) => r matches Some(d) && is_distribution(
                    d,
                    old(self).schedule.reward,
                    old(self).miner_share_in_force(config),
                    config.mining_pool_max_rate,
                    *pool,
                    validators@.len() as u64,
                ) && deposits_of(final(effects)@) == deposits_of(old(effects)@) + payouts(
                    d,
                    a,
                    config.treasury,
                    validators@,
                ) + old(self).schedule.mints@ && final(events)@ == old(events)@ + if d.slash
                    > 0 {
                    seq![Event::PoolExceedsLimit(a, d.slash)]
                } else {
                    Seq::empty()
                } && forall|x: u64|
                    !rewarded(d, a, validators@, x) ==> final(self).locks_of(x) == old(
                        self,
                    ).locks_of(x),
                None => r is None && final(self).reward_locks@ == old(self).reward_locks@ && deposits_of(final(effects)@) == deposits_of(old(effects)@)
                    + old(self).schedule.mints@ && final(events)@ == old(events)@,
            },
    {
        let mut dist: Option<Distribution> = None;
        match self.author {
            Some(author) => {
                let reward = self.schedule.reward;
                let d = self.do_reward::<G>(
                    author,
                    reward,
                    now,
                    validators,
                    pool,
                    config,
                    effects,
                    events,
                );
                dist = Some(d);
            },
            None => {},
        }
        let ghost before = deposits_of(effects@);
        Self::do_mints(&self.schedule.mints, effects);
        assert(deposits_of(effects@) == before + self.schedule.mints@);
        self.author = None;
        proof {
            if old(self).author is Some {
                let d = dist->0;
                assert(deposits_of(effects@) =~= deposits_of(old(effects)@) + payouts(
                    d,
                    old(self).author->0,
                    config.treasury,
                    validators@,
                ) + old(self).schedule.mints@);
            } else {
                assert(deposits_of(effects@) =~= deposits_of(old(effects)@) + old(self).schedule.mints@);
            }
        }
        dist
    }

    /// Sets the lock parameters where they pass `check_lock_params`.
    pub fn set_lock_params(
        &mut self,
        config: &Config,
        lock_params: LockParameters,
        events: &mut Vec<Event>,
    ) -> (r: Result<(), Error>)
        requires
            old(self).wf(),
        ensures
            final(self).wf(),
            r == lock_params_verdict(config.lock_parameters_bounds, lock_params),
            r is Ok ==> final(self).lock_params == Some(lock_params) && final(events)@
                == old(events)@.push(Event::LockParamsChanged(lock_params)),
            r is Err ==> final(self).lock_params == old(self).lock_params && final(events)@
                == old(events)@,
            final(self).author == old(self).author,
            final(self).schedule == old(self).schedule,
            final(self).reward_locks@ == old(self).reward_locks@,
            final(self).miner_share == old(self).miner_share,
    {
        match check_lock_params(&config.lock_parameters_bounds, lock_params) {
            Err(e) => Err(e),
            Ok(()) => {
                self.lock_params = Some(lock_params);
                events.push(Event::LockParamsChanged(lock_params));
                Ok(())
            },
        }
    }

    /// Sets the miner share override; a percent above a hundred is ignored.
    pub fn set_miner_share(&mut self, pct: u8, events: &mut Vec<Event>)
        requires
            old(self).wf(),
        ensures
            final(self).wf(),
            pct <= PERCENT_ONE ==> final(self).miner_share == Some(pct) && final(events)@
                == old(events)@.push(Event::MinerShare(pct)),
            pct > PERCENT_ONE ==> final(self).miner_share == old(self).miner_share && final(events)@
                == old(events)@,
            final(self).author == old(self).author,
            final(self).schedule == old(self).schedule,
            final(self).reward_locks@ == old(self).reward_locks@,
            final(self).lock_params == old(self).lock_params,
    {
        if pct <= PERCENT_ONE {
            self.miner_share = Some(pct);
            events.push(Event::MinerShare(pct));
        }
    }
    /// Puts a whole new schedule in force, where every amount in it is at
    /// least the minimum balance; else changes nothing.
    pub fn set_schedule(
        &mut self,
        config: &Config,
        reward: u128,
        mints: Vec<(u64, u128)>,
        reward_changes: Vec<(u64, u128)>,
        mint_changes: Vec<(u64, Vec<(u64, u128)>)>,
        events: &mut Vec<Event>,
    ) -> (r: Result<(), Error>)
        requires
            old(self).wf(),
        ensures
            final(self).wf(),
            final(self).author == old(self).author,
            final(self).reward_locks@ == old(self).reward_locks@,
            final(self).lock_params == old(self).lock_params,
            final(self).miner_share == old(self).miner_share,
            match schedule_verdict(
                reward,
                mints@,
                reward_changes@,
                mint_changes@,
                config.minimum_balance,
            ) {
                Err(e) => r == Err::<(), Error>(e) && final(self).schedule == old(self).schedule
                    && final(events)@ == old(events)@,
                Ok(_) => {
                    &&& r is Ok
                    &&& final(self).schedule.reward == reward
                    &&& is_map_of(final(self).schedule.mints@, mints@)
                    &&& is_map_of(final(self).schedule.reward_changes@, reward_changes@)
                    &&& final(events)@.len() == old(events)@.len() + 3
                    &&& final(events)@[old(events)@.len() as int] == Event::RewardChanged(reward)
                    &&& final(events)@[old(events)@.len() + 1int] matches Event::MintsChanged(m)
                        && m@ == final(self).schedule.mints@
                    &&& final(events)@[old(events)@.len() + 2int] is ScheduleSet
                    &&& forall|k: u64| #[trigger]
                        value_at(final(self).schedule.mint_changes@, k) is Some
                            <==> last_given(mint_changes@, k) is Some
                    &&& forall|k: u64|
                        #[trigger] value_at(final(self).schedule.mint_changes@, k) matches Some(v)
                            ==> is_map_of(v@, last_given(mint_changes@, k)->0@)
                },
            },
    {
        match Schedule::build(reward, mints, reward_changes, mint_changes, config.minimum_balance) {
            Err(e) => Err(e),
            Ok(t) => {
                let notice = copy_entries(&t.mints);
                self.schedule = t;
                events.push(Event::RewardChanged(reward));
                events.push(Event::MintsChanged(notice));
                events.push(Event::ScheduleSet);
                Ok(())
            },
        }
    }
}

} // verus!
