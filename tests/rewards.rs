use rewards::distribute::{distribute, overmined, PoolStat};
use rewards::locks::{
    check_lock_params, merge_locks, settle, CurrencyLock, EvenLocks, GenerateRewardLocks,
    LockBounds, LockParameters,
};
use rewards::pallet::{Config, Effect, Pallet};
use rewards::schedule::{to_key_map, Schedule};
use rewards::{Error, Event};

fn bounds() -> LockBounds {
    LockBounds { period_max: 1000, period_min: 10, divide_max: 100, divide_min: 1 }
}

fn config() -> Config {
    Config {
        miner_rewards_percent: 50,
        mining_pool_max_rate: 30,
        lock_parameters_bounds: bounds(),
        minimum_balance: 10,
        treasury: 999,
    }
}

fn empty_schedule(reward: u128) -> Schedule {
    Schedule { reward, reward_changes: vec![], mints: vec![], mint_changes: vec![] }
}

fn deposits(effects: &[Effect]) -> Vec<(u64, u128)> {
    effects
        .iter()
        .filter_map(|e| match e {
            Effect::Deposit(a, x) => Some((*a, *x)),
            Effect::Lock(_, _) => None,
        })
        .collect()
}

#[test]
fn even_locks_sum_to_payout() {
    let p = LockParameters { period: 12, divide: 3 };
    let locks = EvenLocks::generate_reward_locks(100, 1000, Some(p));
    assert_eq!(locks, vec![(104, 333), (108, 333), (112, 334)]);
    let total: u128 = locks.iter().map(|e| e.1).sum();
    assert_eq!(total, 1000);
}

#[test]
fn even_locks_small_amount_and_single_part() {
    let locks = EvenLocks::generate_reward_locks(5, 2, Some(LockParameters { period: 30, divide: 10 }));
    assert_eq!(locks.len(), 10);
    assert_eq!(locks.iter().map(|e| e.1).sum::<u128>(), 2);
    assert_eq!(locks[9], (35, 2));
    let one = EvenLocks::generate_reward_locks(5, 77, Some(LockParameters { period: 20, divide: 1 }));
    assert_eq!(one, vec![(25, 77)]);
}

#[test]
fn even_locks_without_parameters_lock_nothing() {
    assert!(EvenLocks::generate_reward_locks(5, 1000, None).is_empty());
}

#[test]
fn settle_drops_expired_and_totals_the_rest() {
    let locks = vec![(5, 10), (10, 20), (11, 30), (20, 40)];
    let (kept, lock) = settle(locks, 10, false);
    assert_eq!(kept, vec![(11, 30), (20, 40)]);
    assert_eq!(lock, CurrencyLock::LockedTo(70));
}

#[test]
fn settle_with_nothing_left_locks_zero() {
    let (kept, lock) = settle(vec![(3, 10)], 3, false);
    assert!(kept.is_empty());
    assert_eq!(lock, CurrencyLock::LockedTo(0));
}

#[test]
fn settle_forced_removes_everything() {
    let locks = vec![(50, 10), (60, 20)];
    let (kept, lock) = settle(locks, 0, true);
    assert!(kept.is_empty());
    assert_eq!(lock, CurrencyLock::Removed);
}

#[test]
fn merge_adds_on_equal_keys() {
    let mut locks = vec![(10, 5), (20, 7)];
    merge_locks(&mut locks, &vec![(15, 1), (20, 3), (30, 4)]);
    assert_eq!(locks, vec![(10, 5), (15, 1), (20, 10), (30, 4)]);
}

#[test]
fn merge_saturates_at_the_largest_balance() {
    let mut locks = vec![(10, u128::MAX - 1)];
    merge_locks(&mut locks, &vec![(10, 5)]);
    assert_eq!(locks, vec![(10, u128::MAX)]);
}

#[test]
fn conservation_of_the_block_reward() {
    for reward in [0u128, 1, 7, 1000, 123_456_789, u128::MAX] {
        let pool = Some(PoolStat { pool_rate: 40, members: vec![(1, 3), (2, 5), (3, 0)] });
        let d = distribute(reward, 70, 30, &pool, 3);
        assert!(d.author_payout <= reward);
        assert_eq!(d.author_payout + d.validator_total, reward);
        let d = distribute(reward, 70, 30, &None, 3);
        assert_eq!(d.author_payout + d.validator_total, reward);
    }
}

#[test]
fn overmining_ramp() {
    assert_eq!(overmined(30, 30), 0);
    assert_eq!(overmined(60, 30), 1_000_000_000);
    assert_eq!(overmined(45, 30), 500_000_000);
    assert_eq!(overmined(20, 30), 0);
    assert_eq!(overmined(100, 30), 1_000_000_000);
    assert_eq!(overmined(40, 30), 333_333_333);
    assert_eq!(overmined(1, 0), 1_000_000_000);
}

#[test]
fn overmining_slash_amounts() {
    let pool = |rate| Some(PoolStat { pool_rate: rate, members: vec![] });
    assert_eq!(distribute(1000, 50, 30, &pool(30), 1).slash, 0);
    assert_eq!(distribute(1000, 50, 30, &pool(60), 1).slash, 500);
    assert_eq!(distribute(1000, 50, 30, &pool(45), 1).slash, 250);
}

#[test]
fn pool_split_scenario() {
    let pool = Some(PoolStat { pool_rate: 45, members: vec![(1, 1), (2, 1)] });
    let d = distribute(1000, 50, 30, &pool, 2);
    assert_eq!(d.overmined, 500_000_000);
    assert_eq!(d.slash, 250);
    // 45% of 250 is 112.5, which rounds down on the tie.
    assert_eq!(d.member_payouts, vec![(1, 69), (2, 69)]);
    assert_eq!(d.author_payout, 112);
    assert_eq!(d.validator_total, 888);
    assert_eq!(d.per_validator, 444);
}

#[test]
fn pool_remainder_goes_to_the_author() {
    let pool = Some(PoolStat { pool_rate: 0, members: vec![(1, 1), (2, 1), (3, 1)] });
    let d = distribute(100, 100, 100, &pool, 0);
    assert_eq!(d.slash, 0);
    assert_eq!(d.member_payouts, vec![(1, 33), (2, 33), (3, 33)]);
    assert_eq!(d.author_payout, 1);
    assert_eq!(d.validator_total, 99);
}

#[test]
fn pool_members_by_weight() {
    let pool = Some(PoolStat { pool_rate: 0, members: vec![(1, 1), (2, 3)] });
    let d = distribute(1000, 100, 100, &pool, 1);
    assert_eq!(d.member_payouts, vec![(1, 250), (2, 750)]);
    assert_eq!(d.author_payout, 0);
    assert_eq!(d.validator_total, 1000);
}

#[test]
fn pool_with_zero_weights_splits_equally() {
    let pool = Some(PoolStat { pool_rate: 0, members: vec![(1, 0), (2, 0)] });
    let d = distribute(1000, 100, 100, &pool, 1);
    assert_eq!(d.member_payouts, vec![(1, 500), (2, 500)]);
}

#[test]
fn miner_share_rounds_to_nearest() {
    let d = distribute(7, 50, 30, &None, 1);
    // 3.5 rounds down on the tie.
    assert_eq!(d.author_payout, 3);
    let d = distribute(1001, 55, 30, &None, 1);
    // 550.55 rounds up.
    assert_eq!(d.author_payout, 551);
    assert_eq!(d.per_validator, 450);
}

#[test]
fn validators_share_equally() {
    let d = distribute(1000, 10, 30, &None, 3);
    assert_eq!(d.validator_total, 900);
    assert_eq!(d.per_validator, 300);
}

#[test]
fn no_validators_hands_their_part_to_nobody() {
    let mut pallet = Pallet::new(empty_schedule(1000));
    let mut effects = Vec::new();
    let mut events = Vec::new();
    let _ = pallet.on_initialize(1, Some(7), 1000);
    let d = pallet
        .on_finalize::<EvenLocks>(1, &vec![], &None, &config(), &mut effects, &mut events)
        .unwrap();
    assert_eq!(d.validator_total, 500);
    assert_eq!(deposits(&effects), vec![(7, 500)]);
}

#[test]
fn schedule_replay_applies_all_due_changes_in_order() {
    let mut s = empty_schedule(100);
    s.reward_changes = vec![(10, 200), (12, 300), (20, 400)];
    assert!(s.advance(9).is_empty());
    let events = s.advance(15);
    assert_eq!(events.len(), 2);
    assert!(matches!(events[0], Event::RewardChanged(200)));
    assert!(matches!(events[1], Event::RewardChanged(300)));
    assert_eq!(s.reward, 300);
    assert_eq!(s.reward_changes, vec![(20, 400)]);
}

#[test]
fn schedule_replay_leaves_queue_empty() {
    let mut s = empty_schedule(100);
    s.reward_changes = vec![(10, 200), (12, 300)];
    let events = s.advance(15);
    assert_eq!(events.len(), 2);
    assert!(s.reward_changes.is_empty());
    assert_eq!(s.reward, 300);
}

#[test]
fn schedule_advance_again_is_a_no_op() {
    let mut s = empty_schedule(100);
    s.reward_changes = vec![(10, 200), (12, 300)];
    s.mint_changes = vec![(11, vec![(5, 50)])];
    let events = s.advance(15);
    assert_eq!(events.len(), 3);
    assert!(matches!(&events[2], Event::MintsChanged(m) if m == &vec![(5, 50)]));
    assert!(s.advance(15).is_empty());
    assert!(s.advance(14).is_empty());
    assert_eq!(s.reward, 300);
    assert_eq!(s.mints, vec![(5, 50)]);
}

#[test]
fn lock_params_checks() {
    let b = bounds();
    assert_eq!(check_lock_params(&b, LockParameters { period: 100, divide: 10 }), Ok(()));
    assert_eq!(
        check_lock_params(&b, LockParameters { period: 5, divide: 1 }),
        Err(Error::LockParamsOutOfBounds)
    );
    assert_eq!(
        check_lock_params(&b, LockParameters { period: 100, divide: 200 }),
        Err(Error::LockParamsOutOfBounds)
    );
    assert_eq!(
        check_lock_params(&b, LockParameters { period: 100, divide: 7 }),
        Err(Error::LockPeriodNotDivisible)
    );
}

#[test]
fn set_schedule_rejects_low_amounts() {
    let c = config();
    let mut pallet = Pallet::new(empty_schedule(100));
    let mut events = Vec::new();
    assert_eq!(
        pallet.set_schedule(&c, 5, vec![], vec![], vec![], &mut events),
        Err(Error::RewardTooLow)
    );
    assert_eq!(
        pallet.set_schedule(&c, 50, vec![(1, 5)], vec![], vec![], &mut events),
        Err(Error::MintTooLow)
    );
    assert_eq!(
        pallet.set_schedule(&c, 50, vec![], vec![(3, 9)], vec![], &mut events),
        Err(Error::RewardTooLow)
    );
    assert_eq!(
        pallet.set_schedule(&c, 50, vec![], vec![], vec![(3, vec![(1, 2)])], &mut events),
        Err(Error::MintTooLow)
    );
    assert!(events.is_empty());
    assert_eq!(pallet.schedule.reward, 100);
}

#[test]
fn set_schedule_orders_and_keeps_last_values() {
    let c = config();
    let mut pallet = Pallet::new(empty_schedule(100));
    let mut events = Vec::new();
    let r = pallet.set_schedule(
        &c,
        50,
        vec![(2, 20), (1, 10), (2, 30)],
        vec![(12, 300), (10, 200)],
        vec![(7, vec![(4, 40), (3, 30)])],
        &mut events,
    );
    assert_eq!(r, Ok(()));
    assert_eq!(pallet.schedule.reward, 50);
    assert_eq!(pallet.schedule.mints, vec![(1, 10), (2, 30)]);
    assert_eq!(pallet.schedule.reward_changes, vec![(10, 200), (12, 300)]);
    assert_eq!(pallet.schedule.mint_changes, vec![(7, vec![(3, 30), (4, 40)])]);
    assert_eq!(events.len(), 3);
    assert!(matches!(events[0], Event::RewardChanged(50)));
    assert!(matches!(events[2], Event::ScheduleSet));
}

#[test]
fn to_key_map_last_entry_wins() {
    assert_eq!(to_key_map(vec![(3u64, 1u128), (1, 2), (3, 5)]), vec![(1, 2), (3, 5)]);
}

#[test]
fn block_with_locks_and_mints() {
    let c = config();
    let mut schedule = empty_schedule(0);
    schedule.mints = vec![(50, 11)];
    let mut pallet = Pallet::new(schedule);
    let mut events = Vec::new();
    assert_eq!(
        pallet.set_lock_params(&c, LockParameters { period: 20, divide: 2 }, &mut events),
        Ok(())
    );
    pallet.set_miner_share(60, &mut events);
    assert_eq!(pallet.miner_share, Some(60));
    pallet.set_miner_share(101, &mut events);
    assert_eq!(pallet.miner_share, Some(60));

    let mut effects = Vec::new();
    let _ = pallet.on_initialize(100, Some(7), 1000);
    let d = pallet
        .on_finalize::<EvenLocks>(100, &vec![8, 9], &None, &c, &mut effects, &mut events)
        .unwrap();
    assert_eq!(d.author_payout, 600);
    assert_eq!(d.per_validator, 200);
    assert_eq!(deposits(&effects), vec![(7, 600), (8, 200), (9, 200), (50, 11)]);
    assert!(effects.contains(&Effect::Lock(7, CurrencyLock::LockedTo(600))));
    assert_eq!(pallet.author, None);
    assert_eq!(pallet.locks(7, 100), 600);
    assert_eq!(pallet.locks(7, 110), 300);
    assert_eq!(pallet.locks(8, 120), 0);

    // A second block at 110 lands one unlock on block 120 again.
    let _ = pallet.on_initialize(110, Some(7), 1000);
    let mut effects = Vec::new();
    let _ = pallet.on_finalize::<EvenLocks>(110, &vec![], &None, &c, &mut effects, &mut events);
    assert_eq!(pallet.reward_locks.get(&7), Some(&vec![(120, 600), (130, 300)]));
    assert!(effects.contains(&Effect::Lock(7, CurrencyLock::LockedTo(900))));

    let mut effects = Vec::new();
    pallet.unlock(7, 120, &mut effects);
    assert_eq!(effects, vec![Effect::Lock(7, CurrencyLock::LockedTo(300))]);
    assert_eq!(pallet.reward_locks.get(&7), Some(&vec![(130, 300)]));
    let mut effects = Vec::new();
    pallet.force_unlock(7, 120, &mut effects);
    assert_eq!(effects, vec![Effect::Lock(7, CurrencyLock::Removed)]);
    assert_eq!(pallet.locks(7, 0), 0);
}

#[test]
fn block_without_author_only_mints() {
    let mut schedule = empty_schedule(1000);
    schedule.mints = vec![(1, 5), (2, 6)];
    let mut pallet = Pallet::new(schedule);
    let mut effects = Vec::new();
    let mut events = Vec::new();
    let _ = pallet.on_initialize(3, None, 1000);
    let r = pallet.on_finalize::<EvenLocks>(3, &vec![9], &None, &config(), &mut effects, &mut events);
    assert!(r.is_none());
    assert_eq!(effects, vec![Effect::Deposit(1, 5), Effect::Deposit(2, 6)]);
}

#[test]
fn overmining_block_pays_the_treasury() {
    let c = config();
    let mut pallet = Pallet::new(empty_schedule(0));
    let mut effects = Vec::new();
    let mut events = Vec::new();
    let _ = pallet.on_initialize(1, Some(7), 1000);
    let pool = Some(PoolStat { pool_rate: 45, members: vec![(1, 1), (2, 1)] });
    let _ = pallet.on_finalize::<EvenLocks>(1, &vec![8, 9], &pool, &c, &mut effects, &mut events);
    assert_eq!(
        deposits(&effects),
        vec![(999, 250), (1, 69), (2, 69), (7, 112), (8, 444), (9, 444)]
    );
    assert!(matches!(events[..], [Event::PoolExceedsLimit(7, 250)]));
}

#[test]
fn curve_reward_then_due_change() {
    let mut schedule = empty_schedule(0);
    schedule.reward_changes = vec![(5, 777)];
    let mut pallet = Pallet::new(schedule);
    let _ = pallet.on_initialize(4, None, 1000);
    assert_eq!(pallet.schedule.reward, 1000);
    let events = pallet.on_initialize(5, None, 1000);
    assert_eq!(pallet.schedule.reward, 777);
    assert_eq!(events.len(), 1);
}

#[test]
fn even_locks_short_period_unlocks_next_block() {
    let locks = EvenLocks::generate_reward_locks(5, 9, Some(LockParameters { period: 0, divide: 4 }));
    assert_eq!(locks, vec![(6, 9)]);
}

#[test]
fn even_locks_without_room_lock_nothing() {
    let p = Some(LockParameters { period: 10, divide: 2 });
    assert!(EvenLocks::generate_reward_locks(u64::MAX - 3, 100, p).is_empty());
}

#[test]
fn zero_slash_pays_and_reports_nothing() {
    let c = config();
    let mut pallet = Pallet::new(empty_schedule(0));
    let mut effects = Vec::new();
    let mut events = Vec::new();
    let _ = pallet.on_initialize(1, Some(7), 1);
    let pool = Some(PoolStat { pool_rate: 45, members: vec![] });
    let d = pallet
        .on_finalize::<EvenLocks>(1, &vec![8], &pool, &c, &mut effects, &mut events)
        .unwrap();
    assert_eq!(d.overmined, 500_000_000);
    assert_eq!(d.slash, 0);
    assert_eq!(deposits(&effects), vec![(7, 0), (8, 1)]);
    assert!(events.is_empty());
}

#[test]
fn payout_without_lock_parameters_only_deposits() {
    let mut pallet = Pallet::new(empty_schedule(0));
    let mut effects = Vec::new();
    let g = pallet.do_reward_per_account::<EvenLocks>(3, 40, 10, &mut effects);
    assert!(g.is_empty());
    assert_eq!(effects, vec![Effect::Deposit(3, 40)]);
    assert!(pallet.reward_locks.is_empty());
}

#[test]
fn payout_grows_the_locked_total_by_the_reward() {
    let c = config();
    let mut pallet = Pallet::new(empty_schedule(0));
    let mut events = Vec::new();
    pallet.set_lock_params(&c, LockParameters { period: 30, divide: 3 }, &mut events).unwrap();
    let mut effects = Vec::new();
    let _ = pallet.do_reward_per_account::<EvenLocks>(3, 100, 10, &mut effects);
    assert_eq!(pallet.locks(3, 10), 100);
    let mut effects = Vec::new();
    let g = pallet.do_reward_per_account::<EvenLocks>(3, 50, 20, &mut effects);
    assert_eq!(g, vec![(30, 16), (40, 16), (50, 18)]);
    // The unlock at block 20 has expired; 30 and 40 got added to.
    assert_eq!(pallet.reward_locks.get(&3), Some(&vec![(30, 49), (40, 50), (50, 18)]));
    assert_eq!(pallet.locks(3, 20), 67 + 50);
    assert_eq!(
        effects,
        vec![Effect::Deposit(3, 50), Effect::Lock(3, CurrencyLock::LockedTo(117))]
    );
}

#[test]
fn payouts_in_either_order_give_one_ledger() {
    let c = config();
    let run = |first: u128, second: u128| {
        let mut pallet = Pallet::new(empty_schedule(0));
        let mut events = Vec::new();
        pallet.set_lock_params(&c, LockParameters { period: 20, divide: 2 }, &mut events).unwrap();
        let mut effects = Vec::new();
        let _ = pallet.do_reward_per_account::<EvenLocks>(3, first, 10, &mut effects);
        let _ = pallet.do_reward_per_account::<EvenLocks>(3, second, 10, &mut effects);
        (pallet.reward_locks.get(&3).cloned(), effects.last().copied())
    };
    assert_eq!(run(30, 70), run(70, 30));
}

#[test]
fn member_shares_round_down() {
    // Three equal members share 5: each gets a third, rounded down.
    let pool = Some(PoolStat { pool_rate: 0, members: vec![(1, 1), (2, 1), (3, 1)] });
    let d = distribute(5, 100, 30, &pool, 1);
    assert_eq!(d.member_payouts, vec![(1, 1), (2, 1), (3, 1)]);
    assert_eq!(d.author_payout, 2);
    assert_eq!(d.validator_total, 3);
}

#[test]
fn member_shares_never_exceed_members_total() {
    // Six members at 16% each of 10: nearest rounding would pay 2 each.
    let members: Vec<(u64, u32)> = (1..=6).map(|i| (i, 16)).chain([(7, 4)]).collect();
    let pool = Some(PoolStat { pool_rate: 0, members });
    let d = distribute(10, 100, 100, &pool, 1);
    let paid: u128 = d.member_payouts.iter().map(|e| e.1).sum();
    assert!(paid <= 10);
    assert_eq!(d.member_payouts[0], (1, 1));
    assert_eq!(paid + d.author_payout, 10);
}
