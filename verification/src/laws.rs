//! Settlement laws: what the issued transfer schedule adds up to.

use vstd::prelude::*;

verus! {

use crate::math::{lemma_mul_div_le, POOL_LIMIT};
use crate::model::{
    payout_amount,
    payout_transfers,
    winner_pool,
    BetEntry,
    PayoutPolicy,
    Transfer,
};
use vstd::arithmetic::div_mod::{
    lemma_basic_div,
    lemma_div_is_ordered,
    lemma_div_multiples_vanish,
    lemma_div_pos_is_pos,
};
use vstd::arithmetic::mul::{
    lemma_mul_is_commutative,
    lemma_mul_is_distributive_add,
    lemma_mul_nonnegative,
};

/// The sum of the amounts of a transfer schedule.
pub open spec fn transfers_total(ts: Seq<Transfer>) -> int
    decreases ts.len(),
{
    if ts.len() == 0 {
        0
    } else {
        transfers_total(ts.drop_last()) + ts.last().amount
    }
}

/// The sum, over the entries that chose outcome `w`, of the formula payout.
pub open spec fn payout_total(
    policy: PayoutPolicy,
    entries: Seq<BetEntry>,
    w: u128,
    total: int,
    winner: int,
) -> int
    decreases entries.len(),
{
    if entries.len() == 0 {
        0
    } else {
        payout_total(policy, entries.drop_last(), w, total, winner) + if entries.last().outcome
            == w {
            payout_amount(policy, total, entries.last().amount as int, winner)
        } else {
            0
        }
    }
}

/// One formula payout lies between the entry's own stake and the stake plus
/// the whole pool, so it always fits alongside them.
pub proof fn lemma_payout_amount_bounds(policy: PayoutPolicy, total: int, stake: int, winner: int)
    requires
        0 < winner,
        0 <= stake <= winner,
        0 <= total,
    ensures
        stake <= payout_amount(policy, total, stake, winner) <= stake + total,
{
    match policy {
        PayoutPolicy::Proportional => {
            lemma_mul_nonnegative(total, stake);
            lemma_div_pos_is_pos(total * stake, winner);
            lemma_mul_div_le(total, stake, winner);
        },
        PayoutPolicy::LegacyTruncated => {
            vstd::arithmetic::mul::lemma_mul_basics_2(total);
            vstd::arithmetic::mul::lemma_mul_basics_4(total);
            if stake < winner {
                lemma_basic_div(stake, winner);
                assert(total * (stake / winner) == 0);
            } else {
                lemma_div_multiples_vanish(1, winner);
                assert(winner * 1 == winner);
                assert(stake / winner == 1);
                assert(total * (stake / winner) == total);
            }
        },
    }
}

/// Division by a common positive divisor is superadditive on sums:
/// `x / d + y / d <= (x + y) / d`.
pub proof fn lemma_div_subadd(x: int, y: int, d: int)
    requires
        0 < d,
        0 <= x,
        0 <= y,
    ensures
        x / d + y / d <= (x + y) / d,
{
    let q = x / d + y / d;
    assert(d * q <= x + y) by {
        vstd::arithmetic::div_mod::lemma_fundamental_div_mod(x, d);
        vstd::arithmetic::div_mod::lemma_fundamental_div_mod(y, d);
        lemma_mul_is_distributive_add(d, x / d, y / d);
    }
    lemma_div_pos_is_pos(x, d);
    lemma_div_pos_is_pos(y, d);
    lemma_div_is_ordered(d * q, x + y, d);
    lemma_div_multiples_vanish(q, d);
}

/// Law: when somebody won, the sum of the amounts on the issued transfer
/// schedule equals the sum of the per-entry formula payouts — the split of
/// the pool that the settlement formula prescribes, paid in full.
pub proof fn lemma_transfers_sum_is_formula_split(
    policy: PayoutPolicy,
    entries: Seq<BetEntry>,
    w: u128,
    total: int,
    winner: int,
)
    requires
        0 < winner <= POOL_LIMIT,
        0 <= total <= POOL_LIMIT,
        forall|j: int|
            0 <= j < entries.len() && (#[trigger] entries[j]).outcome == w ==> 0 < entries[j].amount
                <= winner,
    ensures
        transfers_total(payout_transfers(policy, entries, w, total, winner)) == payout_total(
            policy,
            entries,
            w,
            total,
            winner,
        ),
    decreases entries.len(),
{
    if entries.len() > 0 {
        let rest = entries.drop_last();
        let e = entries.last();
        assert(forall|j: int|
            0 <= j < rest.len() && (#[trigger] rest[j]).outcome == w ==> 0 < rest[j].amount
                <= winner) by {
            assert(forall|j: int| 0 <= j < rest.len() ==> rest[j] == entries[j]);
        }
        lemma_transfers_sum_is_formula_split(policy, rest, w, total, winner);
        if e.outcome == w {
            lemma_payout_amount_bounds(policy, total, e.amount as int, winner);
            let pay = payout_amount(policy, total, e.amount as int, winner);
            assert(0 <= pay <= u128::MAX);
            assert((pay as u128) as int == pay);
            let prev = payout_transfers(policy, rest, w, total, winner);
            let t = Transfer { recipient: e.participant, amount: pay as u128 };
            assert(prev.push(t).drop_last() =~= prev);
            assert(prev.push(t).last() == t);
        }
    }
}

/// Law: the schedule a close issues over a well-formed entry list, with the
/// pools the close itself computed, sums to the formula split — the premises
/// here are exactly what `close_betcontext` establishes when somebody won.
pub proof fn lemma_close_schedule_sums_to_split(
    policy: PayoutPolicy,
    entries: Seq<BetEntry>,
    w: u128,
    total: int,
    winner: int,
)
    requires
        crate::model::entries_wf(entries),
        total == crate::model::total_pool(entries),
        winner == winner_pool(entries, w),
        0 < winner,
        total <= POOL_LIMIT,
    ensures
        transfers_total(payout_transfers(policy, entries, w, total, winner)) == payout_total(
            policy,
            entries,
            w,
            total,
            winner,
        ),
{
    crate::model::lemma_pool_bounds(entries, w);
    assert forall|j: int|
        0 <= j < entries.len() && (#[trigger] entries[j]).outcome == w implies 0 < entries[j].amount
        <= winner by {
        crate::model::lemma_entry_le_winner_pool(entries, w, j);
    }
    lemma_transfers_sum_is_formula_split(policy, entries, w, total, winner);
}

/// Law: under the proportional policy the schedule is solvent — the payouts
/// over the winning entries sum to at most the winning pool plus the whole
/// pool (each winner's stake is paid back at most once, and the shares of the
/// pool cannot overlap).
pub proof fn lemma_proportional_split_is_solvent(
    entries: Seq<BetEntry>,
    w: u128,
    total: int,
    winner: int,
)
    requires
        0 < winner,
        0 <= total,
        winner == winner_pool(entries, w),
    ensures
        payout_total(PayoutPolicy::Proportional, entries, w, total, winner) <= winner + total,
{
    lemma_proportional_split_partial(entries, w, total, winner);
    let sub = winner_pool(entries, w);
    assert((total * sub) / winner == total) by {
        lemma_mul_is_commutative(total, sub);
        lemma_div_multiples_vanish(total, winner);
        assert(sub == winner);
    }
}

/// Over any entry list, the proportional payouts sum to at most that list's
/// own winning pool plus its proportional share of the whole pool.
proof fn lemma_proportional_split_partial(entries: Seq<BetEntry>, w: u128, total: int, winner: int)
    requires
        0 < winner,
        0 <= total,
    ensures
        0 <= winner_pool(entries, w),
        payout_total(PayoutPolicy::Proportional, entries, w, total, winner) <= winner_pool(
            entries,
            w,
        ) + (total * winner_pool(entries, w)) / winner,
    decreases entries.len(),
{
    crate::model::lemma_pool_bounds(entries, w);
    if entries.len() == 0 {
        assert(winner_pool(entries, w) == 0);
        assert(total * 0 == 0);
        lemma_basic_div(0, winner);
    } else {
        let rest = entries.drop_last();
        let e = entries.last();
        lemma_proportional_split_partial(rest, w, total, winner);
        let subrest = winner_pool(rest, w);
        if e.outcome == w {
            let stake = e.amount as int;
            assert(stake >= 0);
            lemma_mul_nonnegative(total, subrest);
            lemma_mul_nonnegative(total, stake);
            lemma_div_subadd(total * subrest, total * stake, winner);
            lemma_mul_is_distributive_add(total, subrest, stake);
        }
    }
}

} // verus!
