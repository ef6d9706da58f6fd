//! The split of one block reward between the author, the members of the
//! author's mining pool, the treasury (for overmining) and the validators.
use crate::arith::{
    frac_of, perbill_div, perbill_from_rational, perbill_mul, perbill_mul_floor, perbill_ratio,
    perbill_ratio_nearest, percent_mul, percent_to_perbill, PERBILL_ONE, PERCENT_ONE,
};
use vstd::prelude::*;

verus! {

/// What the mining-pool statistics say of an author: the pool's production
/// rate in percent and the weight of each member, in payout order.
pub struct PoolStat {
    pub pool_rate: u8,
    pub members: Vec<(u64, u32)>,
}

impl PoolStat {
    pub open spec fn wf(&self) -> bool {
        &&& self.pool_rate <= PERCENT_ONE
    }
}

/// How one block reward is split.
pub struct Distribution {
    /// The overmining fraction in parts per billion; zero without a pool.
    pub overmined: u32,
    /// What goes to the treasury.
    pub slash: u128,
    /// What each pool member gets, in the order of the members.
    pub member_payouts: Vec<(u64, u128)>,
    /// What the author gets.
    pub author_payout: u128,
    /// What is left for the validators together.
    pub validator_total: u128,
    /// What each validator gets.
    pub per_validator: u128,
}

/// The overmining fraction in parts per billion: zero up to the limit, a
/// whole from twice the limit on, and the excess over the limit divided by
/// the limit in between. Both rates are in percent.
pub open spec fn overmined_of(pool_rate: nat, limit: nat) -> nat {
    let r = pool_rate * 10_000_000;
    let l = limit * 10_000_000;
    let l2 = if 2 * l > PERBILL_ONE as nat { PERBILL_ONE as nat } else { 2 * l };
    if r <= l {
        0
    } else if r >= l2 {
        PERBILL_ONE as nat
    } else {
        perbill_ratio_nearest((r - l) as nat, l)
    }
}

/// The sum of the first `n` member weights.
pub open spec fn weight_sum(members: Seq<(u64, u32)>, n: nat) -> nat
    decreases n,
{
    if n == 0 || n > members.len() {
        0
    } else {
        weight_sum(members, (n - 1) as nat) + members[n - 1].1 as nat
    }
}

/// The share of a member of weight `w` in `members_total`, where the
/// weights sum to `sum` over `count` members, rounded down; with no weight
/// at all every member counts as one.
pub open spec fn member_share(w: nat, sum: nat, count: nat, members_total: nat) -> nat {
    let (mw, tot) = if sum == 0 { (1nat, count) } else { (w, sum) };
    (members_total * perbill_ratio(mw, tot)) / PERBILL_ONE as nat
}

/// The weight that the first `n` members count with: their weights, or
/// one each where no member has any weight.
pub open spec fn counted_weight(members: Seq<(u64, u32)>, n: nat) -> nat {
    if weight_sum(members, members.len()) == 0 {
        n
    } else {
        weight_sum(members, n)
    }
}

/// A share is at most its weight's part of the members' total.
proof fn lemma_member_share_le(w: nat, tot: nat, m: nat)
    requires
        tot > 0,
    ensures
        ((m * perbill_ratio(w, tot)) / PERBILL_ONE as nat) * tot <= m * w,
{
    let big = PERBILL_ONE as nat;
    let p = perbill_ratio(w, tot);
    let share = (m * p) / big;
    assert(share * big <= m * p) by (nonlinear_arith)
        requires
            share == (m * p) / big,
            big > 0,
    ;
    if w > tot {
        assert(p == big);
        assert(share == m) by (nonlinear_arith)
            requires
                share == (m * p) / big,
                p == big,
                big > 0,
        ;
        assert(m * tot <= m * w) by (nonlinear_arith)
            requires
                tot < w,
        ;
    } else {
        assert(p * tot <= big * w) by (nonlinear_arith)
            requires
                p == (big * w) / tot,
                tot > 0,
        ;
        assert(share * big * tot <= m * p * tot) by (nonlinear_arith)
            requires
                share * big <= m * p,
        ;
        assert(m * p * tot <= m * big * w) by (nonlinear_arith)
            requires
                p * tot <= big * w,
        ;
        assert(share * tot <= m * w) by (nonlinear_arith)
            requires
                share * big * tot <= m * big * w,
                big > 0,
        ;
    }
}

/// The shares of the first `n` members, times the total weight, are at
/// most the members' total times those members' weight.
proof fn lemma_shares_bound(members: Seq<(u64, u32)>, m: nat, n: nat)
    requires
        n <= members.len(),
        members.len() > 0,
    ensures
        shares_sum(members, m, n) * counted_weight(members, members.len()) <= m * counted_weight(
            members,
            n,
        ),
    decreases n,
{
    if n == 0 {
        assert(shares_sum(members, m, 0) == 0);
        assert(0 * counted_weight(members, members.len()) == 0) by (nonlinear_arith);
    } else {
        lemma_shares_bound(members, m, (n - 1) as nat);
        let sum = weight_sum(members, members.len());
        let tot = counted_weight(members, members.len());
        let w = members[n - 1].1 as nat;
        let mw = if sum == 0 { 1nat } else { w };
        lemma_member_share_le(mw, tot, m);
        let prev = shares_sum(members, m, (n - 1) as nat);
        let share = member_share(w, sum, members.len(), m);
        assert(share == (m * perbill_ratio(mw, tot)) / PERBILL_ONE as nat);
        assert(shares_sum(members, m, n) == prev + share);
        assert(counted_weight(members, n) == counted_weight(members, (n - 1) as nat) + mw);
        assert((prev + share) * tot <= m * (counted_weight(members, (n - 1) as nat) + mw))
            by (nonlinear_arith)
            requires
                prev * tot <= m * counted_weight(members, (n - 1) as nat),
                share * tot <= m * mw,
        ;
    }
}

/// Partial sums of the shares only grow.
proof fn lemma_shares_monotone(members: Seq<(u64, u32)>, m: nat, j: nat, n: nat)
    requires
        j <= n <= members.len(),
    ensures
        shares_sum(members, m, j) <= shares_sum(members, m, n),
    decreases n,
{
    if j < n {
        lemma_shares_monotone(members, m, j, (n - 1) as nat);
    }
}

/// The members together never get more than the members' total.
pub proof fn lemma_shares_within(members: Seq<(u64, u32)>, m: nat, j: nat)
    requires
        j <= members.len(),
    ensures
        shares_sum(members, m, j) <= m,
{
    if members.len() > 0 {
        lemma_shares_bound(members, m, members.len());
        lemma_shares_monotone(members, m, j, members.len());
        let tot = counted_weight(members, members.len());
        if weight_sum(members, members.len()) == 0 {
            assert(tot > 0);
        } else {
            assert(tot > 0);
        }
        assert(shares_sum(members, m, members.len()) <= m) by (nonlinear_arith)
            requires
                shares_sum(members, m, members.len()) * tot <= m * tot,
                tot > 0,
        ;
    }
}

/// The shares of the first `n` members together.
pub open spec fn shares_sum(members: Seq<(u64, u32)>, members_total: nat, n: nat) -> nat
    decreases n,
{
    if n == 0 || n > members.len() {
        0
    } else {
        shares_sum(members, members_total, (n - 1) as nat) + member_share(
            members[n - 1].1 as nat,
            weight_sum(members, members.len()),
            members.len(),
            members_total,
        )
    }
}

/// The miner's part of a block reward before any pool is looked at.
pub open spec fn miner_part(block_reward: nat, miner_share: nat) -> nat {
    frac_of(block_reward, miner_share, PERCENT_ONE as nat)
}

/// The slash for an overmining pool, out of the miner's part.
pub open spec fn slash_of(miner_total: nat, pool_rate: nat, limit: nat) -> nat {
    frac_of(miner_total, overmined_of(pool_rate, limit), PERBILL_ONE as nat)
}

/// The pool operator's own cut of what is left after the slash.
pub open spec fn pool_cut(after_slash: nat, pool_rate: nat) -> nat {
    frac_of(after_slash, pool_rate, PERCENT_ONE as nat)
}

/// What the author gets with a pool: the operator's cut and whatever the
/// members' rounded-down shares left of the members' part.
pub open spec fn author_with_pool(block_reward: nat, miner_share: nat, limit: nat, pool: PoolStat) -> nat {
    let mt = miner_part(block_reward, miner_share);
    let after = (mt - slash_of(mt, pool.pool_rate as nat, limit)) as nat;
    let cut = pool_cut(after, pool.pool_rate as nat);
    let members_total = (after - cut) as nat;
    cut + (members_total - shares_sum(pool.members@, members_total, pool.members@.len())) as nat
}

pub proof fn lemma_frac_le(x: nat, part: nat, whole: nat)
    requires
        whole > 0,
        part <= whole,
    ensures
        frac_of(x, part, whole) <= x,
{
    let n = x * part;
    let q = n / whole;
    let rr = n % whole;
    assert(n <= x * whole) by (nonlinear_arith)
        requires
            part <= whole,
            n == x * part,
    ;
    assert(n == whole * q + rr) by (nonlinear_arith)
        requires
            whole > 0,
            q == n / whole,
            rr == n % whole,
    ;
    if q >= x {
        assert(q == x && rr == 0) by (nonlinear_arith)
            requires
                q >= x,
                n == whole * q + rr,
                n <= x * whole,
                0 <= rr,
                whole > 0,
        ;
    } else {
        assert(q + 1 <= x);
    }
}

proof fn lemma_perbill_ratio_le(p: nat, q: nat)
    ensures
        perbill_ratio(p, q) <= PERBILL_ONE,
{
    if q != 0 && p <= q {
        assert((PERBILL_ONE as nat * p) / q <= PERBILL_ONE as nat * q / q) by (nonlinear_arith)
            requires
                p <= q,
                q > 0,
        ;
        assert(PERBILL_ONE as nat * q / q == PERBILL_ONE) by (nonlinear_arith)
            requires
                q > 0,
        ;
    }
}

proof fn lemma_perbill_ratio_nearest_le(p: nat, q: nat)
    ensures
        perbill_ratio_nearest(p, q) <= PERBILL_ONE,
{
    if q != 0 && p <= q {
        lemma_frac_le(PERBILL_ONE as nat, p, q);
        assert(PERBILL_ONE as nat * p == p * PERBILL_ONE as nat) by (nonlinear_arith);
    }
}

/// The overmining ramp, for any limit: nothing is slashed at the limit, the
/// whole miner's part at twice the limit, and half of it (rounded to
/// nearest) midway between.
pub proof fn lemma_overmining_ramp(limit: nat, miner_total: nat)
    requires
        0 < limit,
        2 * limit <= PERCENT_ONE,
    ensures
        overmined_of(limit, limit) == 0,
        slash_of(miner_total, limit, limit) == 0,
        overmined_of(2 * limit, limit) == PERBILL_ONE,
        slash_of(miner_total, 2 * limit, limit) == miner_total,
        limit % 2 == 0 ==> overmined_of(limit + limit / 2, limit) == PERBILL_ONE / 2,
        limit % 2 == 0 ==> slash_of(miner_total, limit + limit / 2, limit) == frac_of(
            miner_total,
            (PERBILL_ONE / 2) as nat,
            PERBILL_ONE as nat,
        ),
{
    let big = PERBILL_ONE as nat;
    assert(miner_total * 0 == 0);
    assert((miner_total * big) / big == miner_total && (miner_total * big) % big == 0)
        by (nonlinear_arith)
        requires
            big > 0,
    ;
    assert(2 * (limit * 10_000_000) == (2 * limit) * 10_000_000);
    if limit % 2 == 0 {
        let h = limit / 2;
        let l = limit * 10_000_000;
        let r = (limit + h) * 10_000_000;
        assert(r - l == h * 10_000_000);
        assert(big * (h * 10_000_000) == (big / 2) * l) by (nonlinear_arith)
            requires
                limit == 2 * h,
                l == limit * 10_000_000,
                big == 1_000_000_000,
        ;
        assert((big * (h * 10_000_000)) / l == big / 2 && (big * (h * 10_000_000)) % l == 0)
            by (nonlinear_arith)
            requires
                big * (h * 10_000_000) == (big / 2) * l,
                l > 0,
        ;
    }
}

/// The overmining fraction, in parts per billion.
pub fn overmined(pool_rate: u8, limit: u8) -> (r: u32)
    requires
        pool_rate <= PERCENT_ONE,
        limit <= PERCENT_ONE,
    ensures
        r == overmined_of(pool_rate as nat, limit as nat),
        r <= PERBILL_ONE,
{
    let r = percent_to_perbill(pool_rate);
    let l = percent_to_perbill(limit);
    let l2: u32 = if l > PERBILL_ONE / 2 { PERBILL_ONE } else { 2 * l };
    if r <= l {
        0
    } else if r >= l2 {
        PERBILL_ONE
    } else {
        proof { lemma_perbill_ratio_nearest_le((r - l) as nat, l as nat); }
        perbill_div(r - l, l)
    }
}

/// What `distribute` hands out: the author's payout and the validators'
/// part add up to the block reward, each member and each validator gets
/// its share as stated, and the slash is the overmining fraction of the
/// miner's part.
pub open spec fn is_distribution(
    d: Distribution,
    block_reward: u128,
    miner_share: u8,
    limit: u8,
    pool: Option<PoolStat>,
    n_validators: u64,
) -> bool {
    &&& d.author_payout <= block_reward
    &&& d.author_payout + d.validator_total == block_reward
    &&& d.validator_total == block_reward - d.author_payout
    &&& d.per_validator == frac_of(
        d.validator_total as nat,
        perbill_ratio(1, n_validators as nat),
        PERBILL_ONE as nat,
    )
    &&& match pool {
        None => {
            &&& d.overmined == 0
            &&& d.slash == 0
            &&& d.member_payouts@.len() == 0
            &&& d.author_payout == miner_part(block_reward as nat, miner_share as nat)
        },
        Some(p) => {
            let mt = miner_part(block_reward as nat, miner_share as nat);
            let after = (mt - slash_of(mt, p.pool_rate as nat, limit as nat)) as nat;
            let members_total = (after - pool_cut(after, p.pool_rate as nat)) as nat;
            &&& d.slash + shares_sum(p.members@, members_total, p.members@.len())
                + d.author_payout == mt
            &&& d.overmined == overmined_of(p.pool_rate as nat, limit as nat)
            &&& d.slash == slash_of(mt, p.pool_rate as nat, limit as nat)
            &&& d.member_payouts@.len() == p.members@.len()
            &&& forall|i: int|
                0 <= i < p.members@.len() ==> d.member_payouts@[i] == (
                    p.members@[i].0,
                    member_share(
                        p.members@[i].1 as nat,
                        weight_sum(p.members@, p.members@.len()),
                        p.members@.len(),
                        members_total,
                    ) as u128,
                )
            &&& d.author_payout == author_with_pool(
                block_reward as nat,
                miner_share as nat,
                limit as nat,
                p,
            )
        },
    }
}

/// Splits `block_reward` for a block. The miner's part is `miner_share`
/// percent of it. With pool statistics for the author, an overmining slash
/// is taken off the miner's part for the treasury, the operator keeps
/// `pool_rate` percent of the rest, and the members share the remainder by
/// weight; what rounding leaves over goes to the author. The validators
/// share what the author does not get. With no validators their part is
/// handed to nobody.
pub fn distribute(
    block_reward: u128,
    miner_share: u8,
    limit: u8,
    pool: &Option<PoolStat>,
    n_validators: u64,
) -> (d: Distribution)
    requires
        miner_share <= PERCENT_ONE,
        limit <= PERCENT_ONE,
        pool matches Some(p) ==> p.wf(),
    ensures
        d.author_payout + d.validator_total == block_reward,
        is_distribution(d, block_reward, miner_share, limit, *pool, n_validators),
{
    let mut miner_total = percent_mul(miner_share, block_reward);
    proof { lemma_frac_le(block_reward as nat, miner_share as nat, PERCENT_ONE as nat); }
    let mut overmined_parts: u32 = 0;
    let mut slash: u128 = 0;
    let mut member_payouts: Vec<(u64, u128)> = Vec::new();
    match pool {
        None => {},
        Some(stat) => {
            let ghost mt = miner_total;
            overmined_parts = overmined(stat.pool_rate, limit);
            slash = perbill_mul(overmined_parts, miner_total);
            proof { lemma_frac_le(mt as nat, overmined_parts as nat, PERBILL_ONE as nat); }
            miner_total = miner_total - slash;
            let pool_total = percent_mul(stat.pool_rate, miner_total);
            proof { lemma_frac_le(miner_total as nat, stat.pool_rate as nat, PERCENT_ONE as nat); }
            let members_total = miner_total - pool_total;
            let members = &stat.members;
            let len = members.len();

            let mut sum_weight: u128 = 0;
            let mut i: usize = 0;
            while i < len
                invariant
                    len == members@.len(),
                    i <= len,
                    sum_weight == weight_sum(members@, i as nat),
                    sum_weight <= i * (u32::MAX as nat),
                decreases len - i,
            {
                assert(sum_weight + members@[i as int].1 <= (i + 1) * (u32::MAX as nat))
                    by (nonlinear_arith)
                    requires
                        sum_weight <= i * (u32::MAX as nat),
                        members@[i as int].1 <= u32::MAX,
                ;
                assert((i + 1) * (u32::MAX as nat) <= (usize::MAX as nat) * (u32::MAX as nat))
                    by (nonlinear_arith)
                    requires
                        i + 1 <= usize::MAX,
                ;
                assert((usize::MAX as nat) * (u32::MAX as nat) <= u128::MAX) by (nonlinear_arith)
                    requires
                        usize::MAX <= u64::MAX,
                ;
                sum_weight = sum_weight + members[i].1 as u128;
                i = i + 1;
            }
            let tot_weight: u128 = if sum_weight == 0 { len as u128 } else { sum_weight };

            let mut payed: u128 = 0;
            let mut j: usize = 0;
            while j < len
                invariant
                    len == members@.len(),
                    j <= len,
                    sum_weight == weight_sum(members@, len as nat),
                    tot_weight == if sum_weight == 0 { len as nat } else { sum_weight as nat },
                    member_payouts@.len() == j,
                    forall|k: int|
                        0 <= k < j ==> member_payouts@[k] == (
                            members@[k].0,
                            member_share(
                                members@[k].1 as nat,
                                sum_weight as nat,
                                len as nat,
                                members_total as nat,
                            ) as u128,
                        ),
                    payed == shares_sum(members@, members_total as nat, j as nat),
                decreases len - j,
            {
                let (member, w) = members[j];
                let mw: u128 = if sum_weight == 0 { 1 } else { w as u128 };
                let part = perbill_from_rational(mw, tot_weight);
                proof { lemma_perbill_ratio_le(mw as nat, tot_weight as nat); }
                let reward = perbill_mul_floor(part, members_total);
                proof { lemma_shares_within(members@, members_total as nat, (j + 1) as nat); }
                member_payouts.push((member, reward));
                payed = payed + reward;
                j = j + 1;
            }
            proof { lemma_shares_within(members@, members_total as nat, len as nat); }
            let left = members_total - payed;
            miner_total = pool_total + left;
        },
    }
    let validator_total = block_reward - miner_total;
    let per_validator = perbill_mul(perbill_from_rational(1, n_validators as u128), validator_total);
    Distribution {
        overmined: overmined_parts,
        slash,
        member_payouts,
        author_payout: miner_total,
        validator_total,
        per_validator,
    }
}

} // verus!
