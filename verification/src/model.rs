//! Data model of the betting ledger.
//!
//! A context is a titled pool that is `Open` until the authority closes it
//! with a winning outcome.  Each bet is one composite record of participant,
//! chosen outcome and staked amount, appended in call order.  The spec
//! functions here define the pools and the payout schedule that the
//! settlement contract promises.

use vstd::prelude::*;

verus! {

/// One bet: who placed it, which outcome they chose, and what they staked.
pub struct BetEntry {
    pub participant: String,
    pub outcome: u128,
    pub amount: u128,
}

/// A context is open for bets until it is closed with the winning outcome.
pub enum ContextStatus {
    Open,
    Closed(u128),
}

/// A betting context: its title, its status, and its bets in call order.
pub struct BetContext {
    pub title: String,
    pub status: ContextStatus,
    pub entries: Vec<BetEntry>,
}

/// How a winner's share of the pool is computed on close.
///
/// `Proportional` multiplies before dividing, in full precision: a winner who
/// staked `s` out of a winning pool `w` receives `s + floor(total * s / w)`.
/// `LegacyTruncated` divides first, `s + total * floor(s / w)`, which
/// truncates `s / w` to zero for every winner staking less than the whole
/// winning pool; it is kept as a named choice for bit-compatibility with
/// deployments of the older formula.
#[derive(Clone, Copy)]
pub enum PayoutPolicy {
    Proportional,
    LegacyTruncated,
}

/// One transfer instruction issued on close: pay `amount` to `recipient`.
#[derive(Clone, Debug, PartialEq, Eq)]
pub struct Transfer {
    pub recipient: String,
    pub amount: u128,
}

/// Why an operation was rejected.
#[derive(Clone, Copy, PartialEq, Eq, Structural, Debug)]
pub enum BetError {
    Unauthorized,
    ContextNotFound,
    ContextClosed,
    AlreadyClosed,
    InvalidAmount,
    InsufficientAttachedValue,
}

impl ContextStatus {
    pub open spec fn is_open(self) -> bool {
        self is Open
    }
}

/// Every staked amount in a well-formed entry list is strictly positive.
pub open spec fn entries_wf(entries: Seq<BetEntry>) -> bool {
    forall|j: int| 0 <= j < entries.len() ==> #[trigger] entries[j].amount > 0
}

/// The total pool: the sum of every staked amount, winners and losers alike.
pub open spec fn total_pool(entries: Seq<BetEntry>) -> int
    decreases entries.len(),
{
    if entries.len() == 0 {
        0
    } else {
        total_pool(entries.drop_last()) + entries.last().amount
    }
}

/// The winning pool: the sum of the amounts staked on outcome `w`.
pub open spec fn winner_pool(entries: Seq<BetEntry>, w: u128) -> int
    decreases entries.len(),
{
    if entries.len() == 0 {
        0
    } else {
        winner_pool(entries.drop_last(), w) + if entries.last().outcome == w {
            entries.last().amount as int
        } else {
            0
        }
    }
}

/// The payout owed to one winning entry of stake `stake`, out of a winning
/// pool `winner`, when the whole pool holds `total`.
pub open spec fn payout_amount(policy: PayoutPolicy, total: int, stake: int, winner: int) -> int
    recommends
        winner > 0,
{
    match policy {
        PayoutPolicy::Proportional => stake + (total * stake) / winner,
        PayoutPolicy::LegacyTruncated => stake + total * (stake / winner),
    }
}

/// The transfer instructions a close issues: one per winning entry, in entry
/// order, each for that entry's own payout.
pub open spec fn payout_transfers(
    policy: PayoutPolicy,
    entries: Seq<BetEntry>,
    w: u128,
    total: int,
    winner: int,
) -> Seq<Transfer>
    decreases entries.len(),
{
    if entries.len() == 0 {
        Seq::empty()
    } else {
        let rest = payout_transfers(policy, entries.drop_last(), w, total, winner);
        let e = entries.last();
        if e.outcome == w {
            rest.push(
                Transfer {
                    recipient: e.participant,
                    amount: payout_amount(policy, total, e.amount as int, winner) as u128,
                },
            )
        } else {
            rest
        }
    }
}

/// Extending an entry list by one entry grows the total pool by its amount.
pub proof fn lemma_total_pool_take_succ(entries: Seq<BetEntry>, i: int)
    requires
        0 <= i < entries.len(),
    ensures
        total_pool(entries.take(i + 1)) == total_pool(entries.take(i)) + entries[i].amount,
{
    assert(entries.take(i + 1).drop_last() =~= entries.take(i));
    assert(entries.take(i + 1).last() == entries[i]);
}

/// Extending an entry list grows the winning pool by the entry's amount
/// exactly when the entry chose the winning outcome.
pub proof fn lemma_winner_pool_take_succ(entries: Seq<BetEntry>, w: u128, i: int)
    requires
        0 <= i < entries.len(),
    ensures
        winner_pool(entries.take(i + 1), w) == winner_pool(entries.take(i), w) + if entries[i].outcome == w {
            entries[i].amount as int
        } else {
            0
        },
{
    assert(entries.take(i + 1).drop_last() =~= entries.take(i));
    assert(entries.take(i + 1).last() == entries[i]);
}

/// The pools are sums of non-negative amounts, so they are non-negative and
/// the winning pool never exceeds the total pool.
pub proof fn lemma_pool_bounds(entries: Seq<BetEntry>, w: u128)
    ensures
        0 <= winner_pool(entries, w) <= total_pool(entries),
    decreases entries.len(),
{
    if entries.len() > 0 {
        lemma_pool_bounds(entries.drop_last(), w);
    }
}

/// A prefix of the entries never holds more than the whole list, in either
/// pool.
pub proof fn lemma_pool_prefix_le(entries: Seq<BetEntry>, w: u128, i: int)
    requires
        0 <= i <= entries.len(),
    ensures
        total_pool(entries.take(i)) <= total_pool(entries),
        winner_pool(entries.take(i), w) <= winner_pool(entries, w),
    decreases entries.len() - i,
{
    if i == entries.len() {
        assert(entries.take(i) =~= entries);
    } else {
        lemma_total_pool_take_succ(entries, i);
        lemma_winner_pool_take_succ(entries, w, i);
        lemma_pool_prefix_le(entries, w, i + 1);
    }
}

/// A winning entry's own stake is at most the winning pool.
pub proof fn lemma_entry_le_winner_pool(entries: Seq<BetEntry>, w: u128, i: int)
    requires
        0 <= i < entries.len(),
        entries[i].outcome == w,
    ensures
        entries[i].amount <= winner_pool(entries, w),
{
    lemma_pool_bounds(entries.take(i), w);
    lemma_winner_pool_take_succ(entries, w, i);
    lemma_pool_prefix_le(entries, w, i + 1);
}

/// If nothing was staked on the winning outcome of a well-formed entry list,
/// no entry chose it, so the close issues no transfers.
pub proof fn lemma_no_winner_no_transfers(
    policy: PayoutPolicy,
    entries: Seq<BetEntry>,
    w: u128,
    total: int,
    winner: int,
)
    requires
        entries_wf(entries),
        winner_pool(entries, w) == 0,
    ensures
        payout_transfers(policy, entries, w, total, winner) =~= Seq::<Transfer>::empty(),
    decreases entries.len(),
{
    if entries.len() > 0 {
        lemma_pool_bounds(entries.drop_last(), w);
        assert(entries.drop_last() =~= entries.take(entries.len() - 1));
        assert(entries_wf(entries.drop_last()));
        assert(entries.last() == entries[entries.len() - 1]);
        lemma_no_winner_no_transfers(policy, entries.drop_last(), w, total, winner);
    }
}

} // verus!
