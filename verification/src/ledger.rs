//! The betting ledger: context store, stake ledger and settlement engine.
//!
//! A single authority, fixed when the contract is built, opens contexts and
//! closes them with a winning outcome.  Anyone may stake on an open context.
//! Closing computes the total and winning pools and issues one transfer
//! instruction per winning entry; executing those transfers, like reading the
//! caller's identity and attached value, belongs to the host environment and
//! is handed in and out as plain values.

use vstd::prelude::*;

verus! {

use crate::math::{mul_div, POOL_LIMIT};
use crate::model::{
    entries_wf,
    payout_amount,
    payout_transfers,
    total_pool,
    winner_pool,
    BetContext,
    BetEntry,
    BetError,
    ContextStatus,
    PayoutPolicy,
    Transfer,
};
use vstd::arithmetic::div_mod::{lemma_basic_div, lemma_div_multiples_vanish};

/// The ledger of betting contexts.
pub struct Contract {
    pub authority: String,
    pub policy: PayoutPolicy,
    pub contexts: Vec<BetContext>,
}

impl ContextStatus {
    /// Executable view of `is_open`.
    pub fn is_open_now(&self) -> (b: bool)
        ensures
            b == self.is_open(),
    {
        match self {
            ContextStatus::Open => true,
            ContextStatus::Closed(_) => false,
        }
    }
}

impl Contract {
    /// How many contexts were ever created.
    pub open spec fn count(self) -> int {
        self.contexts@.len() as int
    }

    /// Context ids form the dense range `1..=count`.
    pub open spec fn has_context(self, id: u128) -> bool {
        1 <= id && id <= self.contexts@.len()
    }

    /// The context with the given id.
    pub open spec fn context_at(self, id: u128) -> BetContext
        recommends
            self.has_context(id),
    {
        self.contexts@[id - 1]
    }

    /// Every stored stake is strictly positive.
    pub open spec fn wf(self) -> bool {
        forall|i: int|
            0 <= i < self.contexts@.len() ==> entries_wf(#[trigger] self.contexts@[i].entries@)
    }

    /// The access control gate: only the configured authority may create or
    /// close contexts.
    pub open spec fn is_authority(self, caller: String) -> bool {
        caller@ == self.authority@
    }

    /// A close of `id` by `caller` passes every check and settles.
    pub open spec fn close_applies(self, id: u128, caller: String) -> bool {
        self.is_authority(caller) && self.has_context(id) && self.context_at(id).status.is_open()
    }

    /// Build a ledger with no contexts, governed by the given authority and
    /// settling with the given payout policy.
    pub fn new(authority: String, policy: PayoutPolicy) -> (c: Contract)
        ensures
            c.authority == authority,
            c.policy == policy,
            c.count() == 0,
            c.wf(),
    {
        Contract { authority, policy, contexts: Vec::new() }
    }

    /// The current number of bet contexts.
    pub fn get_betcontext_count(&self) -> (n: u128)
        ensures
            n as int == self.count(),
    {
        self.contexts.len() as u128
    }

    /// All contexts ever created, as `(id, title)` pairs in ascending id
    /// order, whatever their status.
    pub fn get_all_betcontexts(&self) -> (list: Vec<(u128, String)>)
        ensures
            list@.len() == self.count(),
            forall|i: int|
                0 <= i < list@.len() ==> #[trigger] list@[i].0 == i + 1 && list@[i].1
                    == self.contexts@[i].title,
    {
        let mut list: Vec<(u128, String)> = Vec::new();
        let mut i: usize = 0;
        while i < self.contexts.len()
            invariant
                i <= self.contexts@.len(),
                list@.len() == i,
                forall|j: int|
                    0 <= j < i ==> #[trigger] list@[j].0 == j + 1 && list@[j].1
                        == self.contexts@[j].title,
            decreases self.contexts@.len() - i,
        {
            let title = self.contexts[i].title.clone();
            list.push(((i as u128) + 1, title));
            i = i + 1;
        }
        list
    }

    /// The `(participant, chosen outcome)` pairs of the context, in entry
    /// order; the empty list if the id is unknown.
    pub fn get_all_bets(&self, betcontext_id: u128) -> (bets: Vec<(String, u128)>)
        ensures
            self.has_context(betcontext_id) ==> {
                let entries = self.context_at(betcontext_id).entries@;
                &&& bets@.len() == entries.len()
                &&& forall|j: int|
                    0 <= j < entries.len() ==> #[trigger] bets@[j].0 == entries[j].participant
                        && bets@[j].1 == entries[j].outcome
            },
            !self.has_context(betcontext_id) ==> bets@.len() == 0,
    {
        let mut bets: Vec<(String, u128)> = Vec::new();
        if betcontext_id < 1 || betcontext_id > self.contexts.len() as u128 {
            return bets;
        }
        let idx: usize = (betcontext_id - 1) as usize;
        let entries = &self.contexts[idx].entries;
        let mut j: usize = 0;
        while j < entries.len()
            invariant
                j <= entries@.len(),
                bets@.len() == j,
                entries@ == self.context_at(betcontext_id).entries@,
                forall|k: int|
                    0 <= k < j ==> #[trigger] bets@[k].0 == entries@[k].participant && bets@[k].1
                        == entries@[k].outcome,
            decreases entries@.len() - j,
        {
            bets.push((entries[j].participant.clone(), entries[j].outcome));
            j = j + 1;
        }
        bets
    }

    /// Create a new open context with the given title; only the authority may.
    /// Yields the new context's id, one past the previous count.
    pub fn create_betcontext(&mut self, betcontext_text: String, caller: String) -> (result: Result<
        u128,
        BetError,
    >)
        requires
            old(self).wf(),
        ensures
            final(self).wf(),
            !old(self).is_authority(caller) ==> result == Err::<u128, BetError>(
                BetError::Unauthorized,
            ) && *final(self) == *old(self),
            old(self).is_authority(caller) ==> {
                &&& result == Ok::<u128, BetError>((old(self).count() + 1) as u128)
                &&& final(self).count() == old(self).count() + 1
                &&& forall|i: int|
                    0 <= i < old(self).count() ==> final(self).contexts@[i] == #[trigger] old(
                        self,
                    ).contexts@[i]
                &&& final(self).contexts@.last().title == betcontext_text
                &&& final(self).contexts@.last().status is Open
                &&& final(self).contexts@.last().entries@.len() == 0
                &&& final(self).authority == old(self).authority
                &&& final(self).policy == old(self).policy
            },
    {
        if !(caller == self.authority) {
            return Err(BetError::Unauthorized);
        }
        let id = (self.contexts.len() as u128) + 1;
        let ctx = BetContext {
            title: betcontext_text,
            status: ContextStatus::Open,
            entries: Vec::new(),
        };
        self.contexts.push(ctx);
        Ok(id)
    }

    /// Stake `amt` on outcome `bet_choice` of the context.  The bet is
    /// accepted only while the context is open, for a strictly positive
    /// amount, and with strictly more value attached than the declared stake.
    pub fn bet_on_betcontext(
        &mut self,
        betcontext_id: u128,
        bet_choice: u128,
        amt: u128,
        better: String,
        attached: u128,
    ) -> (result: Result<(), BetError>)
        requires
            old(self).wf(),
        ensures
            final(self).wf(),
            !old(self).has_context(betcontext_id) ==> result == Err::<(), BetError>(
                BetError::ContextNotFound,
            ) && *final(self) == *old(self),
            old(self).has_context(betcontext_id) && !old(self).context_at(
                betcontext_id,
            ).status.is_open() ==> result == Err::<(), BetError>(BetError::ContextClosed) && *final(self)
                == *old(self),
            old(self).has_context(betcontext_id) && old(self).context_at(
                betcontext_id,
            ).status.is_open() && amt == 0 ==> result == Err::<(), BetError>(
                BetError::InvalidAmount,
            ) && *final(self) == *old(self),
            old(self).has_context(betcontext_id) && old(self).context_at(
                betcontext_id,
            ).status.is_open() && amt > 0 && attached <= amt ==> result == Err::<(), BetError>(
                BetError::InsufficientAttachedValue,
            ) && *final(self) == *old(self),
            old(self).has_context(betcontext_id) && old(self).context_at(
                betcontext_id,
            ).status.is_open() && amt > 0 && attached > amt ==> {
                &&& result == Ok::<(), BetError>(())
                &&& final(self).count() == old(self).count()
                &&& final(self).authority == old(self).authority
                &&& final(self).policy == old(self).policy
                &&& forall|i: int|
                    0 <= i < old(self).count() && i != betcontext_id - 1 ==> final(self).contexts@[i]
                        == #[trigger] old(self).contexts@[i]
                &&& final(self).context_at(betcontext_id).title == old(self).context_at(
                    betcontext_id,
                ).title
                &&& final(self).context_at(betcontext_id).status == old(self).context_at(
                    betcontext_id,
                ).status
                &&& final(self).context_at(betcontext_id).entries@ == old(self).context_at(
                    betcontext_id,
                ).entries@.push(
                    BetEntry { participant: better, outcome: bet_choice, amount: amt },
                )
            },
    {
        if betcontext_id < 1 || betcontext_id > self.contexts.len() as u128 {
            return Err(BetError::ContextNotFound);
        }
        let idx: usize = (betcontext_id - 1) as usize;
        if !self.contexts[idx].status.is_open_now() {
            return Err(BetError::ContextClosed);
        }
        if amt == 0 {
            return Err(BetError::InvalidAmount);
        }
        if attached <= amt {
            return Err(BetError::InsufficientAttachedValue);
        }
        let mut ctx = self.contexts.remove(idx);
        ctx.entries.push(BetEntry { participant: better, outcome: bet_choice, amount: amt });
        self.contexts.insert(idx, ctx);
        proof {
            assert(self.contexts@ =~= old(self).contexts@.update(
                idx as int,
                self.contexts@[idx as int],
            ));
        }
        Ok(())
    }

    /// Close the context with the winning outcome; only the authority may,
    /// and only once.  Returns the winning pool and the transfer
    /// instructions: one per winning entry, in entry order, each for that
    /// entry's payout under the configured policy.  With no winner, nothing
    /// is paid and the winning pool reported is zero; the outcome is still
    /// recorded and the context closed.
    pub fn close_betcontext(
        &mut self,
        betcontext_id: u128,
        winning_bet: u128,
        caller: String,
    ) -> (result: Result<(u128, Vec<Transfer>), BetError>)
        requires
            old(self).wf(),
            old(self).close_applies(betcontext_id, caller) ==> total_pool(
                old(self).context_at(betcontext_id).entries@,
            ) <= POOL_LIMIT,
        ensures
            final(self).wf(),
            !old(self).is_authority(caller) ==> result == Err::<(u128, Vec<Transfer>), BetError>(
                BetError::Unauthorized,
            ) && *final(self) == *old(self),
            old(self).is_authority(caller) && !old(self).has_context(betcontext_id) ==> result
                == Err::<(u128, Vec<Transfer>), BetError>(BetError::ContextNotFound) && *final(self)
                == *old(self),
            old(self).is_authority(caller) && old(self).has_context(betcontext_id) && !old(
                self,
            ).context_at(betcontext_id).status.is_open() ==> result == Err::<
                (u128, Vec<Transfer>),
                BetError,
            >(BetError::AlreadyClosed) && *final(self) == *old(self),
            old(self).close_applies(betcontext_id, caller) ==> {
                let entries = old(self).context_at(betcontext_id).entries@;
                let total = total_pool(entries);
                let winner = winner_pool(entries, winning_bet);
                &&& result matches Ok(pair) && pair.0 == winner && pair.1@ == payout_transfers(
                    old(self).policy,
                    entries,
                    winning_bet,
                    total,
                    winner,
                )
                &&& winner == 0 ==> (result matches Ok(pair) && pair.0 == 0 && pair.1@.len() == 0)
                &&& final(self).count() == old(self).count()
                &&& final(self).authority == old(self).authority
                &&& final(self).policy == old(self).policy
                &&& forall|i: int|
                    0 <= i < old(self).count() && i != betcontext_id - 1 ==> final(self).contexts@[i]
                        == #[trigger] old(self).contexts@[i]
                &&& final(self).context_at(betcontext_id).title == old(self).context_at(
                    betcontext_id,
                ).title
                &&& final(self).context_at(betcontext_id).entries@ == entries
                &&& final(self).context_at(betcontext_id).status == ContextStatus::Closed(winning_bet)
            },
    {
        if !(caller == self.authority) {
            return Err(BetError::Unauthorized);
        }
        if betcontext_id < 1 || betcontext_id > self.contexts.len() as u128 {
            return Err(BetError::ContextNotFound);
        }
        let idx: usize = (betcontext_id - 1) as usize;
        if !self.contexts[idx].status.is_open_now() {
            return Err(BetError::AlreadyClosed);
        }
        let mut ctx = self.contexts.remove(idx);
        let ghost entries = ctx.entries@;
        proof {
            assert(entries_wf(entries));
        }
        let n = ctx.entries.len();

        // Total pool: every stake, winners and losers alike.
        let mut total: u128 = 0;
        let mut k: usize = 0;
        while k < n
            invariant
                k <= n,
                n == entries.len(),
                ctx.entries@ == entries,
                total_pool(entries) <= POOL_LIMIT,
                total as int == total_pool(entries.take(k as int)),
            decreases n - k,
        {
            proof {
                crate::model::lemma_total_pool_take_succ(entries, k as int);
                crate::model::lemma_pool_prefix_le(entries, winning_bet, k as int + 1);
                crate::model::lemma_pool_bounds(entries.take(k as int + 1), winning_bet);
            }
            total = total + ctx.entries[k].amount;
            k = k + 1;
        }
        proof {
            assert(entries.take(n as int) =~= entries);
        }

        // Winning pool: the stakes on the winning outcome.
        let mut winner: u128 = 0;
        k = 0;
        while k < n
            invariant
                k <= n,
                n == entries.len(),
                ctx.entries@ == entries,
                total_pool(entries) <= POOL_LIMIT,
                winner as int == winner_pool(entries.take(k as int), winning_bet),
            decreases n - k,
        {
            proof {
                crate::model::lemma_winner_pool_take_succ(entries, winning_bet, k as int);
                crate::model::lemma_pool_prefix_le(entries, winning_bet, k as int + 1);
                crate::model::lemma_pool_bounds(entries.take(k as int + 1), winning_bet);
            }
            if ctx.entries[k].outcome == winning_bet {
                winner = winner + ctx.entries[k].amount;
            }
            k = k + 1;
        }
        proof {
            assert(entries.take(n as int) =~= entries);
            crate::model::lemma_pool_bounds(entries, winning_bet);
        }

        // One transfer instruction per winning entry, in entry order.
        let mut transfers: Vec<Transfer> = Vec::new();
        if winner > 0 {
            k = 0;
            while k < n
                invariant
                    k <= n,
                    n == entries.len(),
                    ctx.entries@ == entries,
                    entries_wf(entries),
                    0 < winner,
                    winner as int == winner_pool(entries, winning_bet),
                    total as int == total_pool(entries),
                    total <= POOL_LIMIT,
                    winner <= total,
                    transfers@ == payout_transfers(
                        self.policy,
                        entries.take(k as int),
                        winning_bet,
                        total as int,
                        winner as int,
                    ),
                decreases n - k,
            {
                proof {
                    assert(entries.take(k as int + 1).drop_last() =~= entries.take(k as int));
                    assert(entries.take(k as int + 1).last() == entries[k as int]);
                }
                if ctx.entries[k].outcome == winning_bet {
                    let stake = ctx.entries[k].amount;
                    proof {
                        crate::model::lemma_entry_le_winner_pool(entries, winning_bet, k as int);
                    }
                    let pay: u128 = match self.policy {
                        PayoutPolicy::Proportional => {
                            let share = mul_div(total, stake, winner);
                            stake + share
                        },
                        PayoutPolicy::LegacyTruncated => {
                            let ratio = stake / winner;
                            proof {
                                if stake < winner {
                                    lemma_basic_div(stake as int, winner as int);
                                } else {
                                    lemma_div_multiples_vanish(1, winner as int);
                                    assert(winner as int * 1 == winner as int);
                                }
                                assert(ratio == 0 || ratio == 1);
                            }
                            let boost = if ratio == 1 {
                                total
                            } else {
                                0
                            };
                            proof {
                                assert(boost as int == total as int * (stake as int
                                    / winner as int)) by (nonlinear_arith)
                                    requires
                                        ratio as int == stake as int / winner as int,
                                        ratio as int == 0 || ratio as int == 1,
                                        boost as int == (if ratio as int == 1 {
                                            total as int
                                        } else {
                                            0
                                        }),
                                ;
                            }
                            stake + boost
                        },
                    };
                    proof {
                        assert(pay as int == payout_amount(
                            self.policy,
                            total as int,
                            stake as int,
                            winner as int,
                        ));
                    }
                    transfers.push(
                        Transfer { recipient: ctx.entries[k].participant.clone(), amount: pay },
                    );
                }
                k = k + 1;
            }
            proof {
                assert(entries.take(n as int) =~= entries);
            }
        } else {
            proof {
                crate::model::lemma_no_winner_no_transfers(
                    self.policy,
                    entries,
                    winning_bet,
                    total as int,
                    winner as int,
                );
            }
        }

        ctx.status = ContextStatus::Closed(winning_bet);
        self.contexts.insert(idx, ctx);
        proof {
            assert(self.contexts@ =~= old(self).contexts@.update(
                idx as int,
                self.contexts@[idx as int],
            ));
        }
        Ok((winner, transfers))
    }
}

/// A fresh ledger: no contexts, proportional settlement, and the ledger's
/// historical authority identity.
impl Default for Contract {
    fn default() -> (c: Contract)
        ensures
            c.authority@ == "admin.near"@,
            c.policy is Proportional,
            c.count() == 0,
            c.wf(),
    {
        Contract {
            authority: "admin.near".to_owned(),
            policy: PayoutPolicy::Proportional,
            contexts: Vec::new(),
        }
    }
}

} // verus!
