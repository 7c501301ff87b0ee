use bet_ledger::ledger::Contract;
use bet_ledger::math::mul_div;
use bet_ledger::model::{BetError, PayoutPolicy};

const NEAR: u128 = 1000000000000000000000000;

fn proportional(authority: &str) -> Contract {
    Contract::new(authority.to_string(), PayoutPolicy::Proportional)
}

#[test]
fn proportional_close_pays_each_winning_entry() {
    let mut contract = proportional("lead.near");
    contract
        .create_betcontext("the race".to_string(), "lead.near".to_string())
        .unwrap();
    contract
        .bet_on_betcontext(1, 1, 5, "a.near".to_string(), 6)
        .unwrap();
    contract
        .bet_on_betcontext(1, 2, 7, "b.near".to_string(), 8)
        .unwrap();
    contract
        .bet_on_betcontext(1, 2, 6, "c.near".to_string(), 7)
        .unwrap();
    contract
        .bet_on_betcontext(1, 3, 8, "d.near".to_string(), 9)
        .unwrap();
    let (winner_pool, transfers) = contract.close_betcontext(1, 2, "lead.near".to_string()).unwrap();
    assert_eq!(winner_pool, 13);
    // total pool 26: b gets 7 + floor(26 * 7 / 13) = 21, c gets 6 + floor(26 * 6 / 13) = 18
    assert_eq!(transfers.len(), 2);
    assert_eq!(transfers[0].recipient, "b.near".to_string());
    assert_eq!(transfers[0].amount, 21);
    assert_eq!(transfers[1].recipient, "c.near".to_string());
    assert_eq!(transfers[1].amount, 18);
}

#[test]
fn legacy_close_truncates_each_share_to_the_stake() {
    let mut contract = Contract::new("lead.near".to_string(), PayoutPolicy::LegacyTruncated);
    contract
        .create_betcontext("the race".to_string(), "lead.near".to_string())
        .unwrap();
    contract
        .bet_on_betcontext(1, 1, 5, "a.near".to_string(), 6)
        .unwrap();
    contract
        .bet_on_betcontext(1, 2, 7, "b.near".to_string(), 8)
        .unwrap();
    contract
        .bet_on_betcontext(1, 2, 6, "c.near".to_string(), 7)
        .unwrap();
    contract
        .bet_on_betcontext(1, 3, 8, "d.near".to_string(), 9)
        .unwrap();
    let (winner_pool, transfers) = contract.close_betcontext(1, 2, "lead.near".to_string()).unwrap();
    assert_eq!(winner_pool, 13);
    // floor(7 / 13) and floor(6 / 13) are both zero, so each winner gets only the stake back
    assert_eq!(transfers.len(), 2);
    assert_eq!(transfers[0].amount, 7);
    assert_eq!(transfers[1].amount, 6);
}

#[test]
fn proportional_close_is_exact_at_ledger_scale() {
    let mut contract = proportional("lead.near");
    contract
        .create_betcontext("the cup".to_string(), "lead.near".to_string())
        .unwrap();
    contract
        .bet_on_betcontext(1, 1, 5 * NEAR, "a.near".to_string(), 10 * NEAR)
        .unwrap();
    contract
        .bet_on_betcontext(1, 2, 7 * NEAR, "b.near".to_string(), 10 * NEAR)
        .unwrap();
    contract
        .bet_on_betcontext(1, 2, 6 * NEAR, "c.near".to_string(), 10 * NEAR)
        .unwrap();
    contract
        .bet_on_betcontext(1, 3, 8 * NEAR, "d.near".to_string(), 10 * NEAR)
        .unwrap();
    let (winner_pool, transfers) = contract.close_betcontext(1, 2, "lead.near".to_string()).unwrap();
    // the product 26 NEAR * 7 NEAR does not fit in u128; the division must still be exact
    assert_eq!(winner_pool, 13 * NEAR);
    assert_eq!(transfers[0].amount, 21 * NEAR);
    assert_eq!(transfers[1].amount, 18 * NEAR);
}

#[test]
fn close_without_winner_pays_nothing_and_still_closes() {
    let mut contract = proportional("lead.near");
    contract
        .create_betcontext("the bout".to_string(), "lead.near".to_string())
        .unwrap();
    contract
        .bet_on_betcontext(1, 1, 5, "a.near".to_string(), 6)
        .unwrap();
    contract
        .bet_on_betcontext(1, 3, 8, "d.near".to_string(), 9)
        .unwrap();
    let (winner_pool, transfers) = contract.close_betcontext(1, 2, "lead.near".to_string()).unwrap();
    assert_eq!(winner_pool, 0);
    assert_eq!(transfers.len(), 0);
    // the outcome is still recorded: the context takes no further bets
    assert_eq!(
        contract.bet_on_betcontext(1, 2, 5, "e.near".to_string(), 6),
        Err(BetError::ContextClosed)
    );
}

#[test]
fn closing_an_empty_context_reports_an_empty_pool() {
    let mut contract = proportional("lead.near");
    contract
        .create_betcontext("nobody came".to_string(), "lead.near".to_string())
        .unwrap();
    let (winner_pool, transfers) = contract.close_betcontext(1, 1, "lead.near".to_string()).unwrap();
    assert_eq!(winner_pool, 0);
    assert_eq!(transfers.len(), 0);
}

#[test]
fn closing_twice_fails_with_already_closed() {
    let mut contract = proportional("lead.near");
    contract
        .create_betcontext("the match".to_string(), "lead.near".to_string())
        .unwrap();
    contract
        .bet_on_betcontext(1, 2, 7, "b.near".to_string(), 8)
        .unwrap();
    contract.close_betcontext(1, 2, "lead.near".to_string()).unwrap();
    assert_eq!(
        contract.close_betcontext(1, 2, "lead.near".to_string()),
        Err(BetError::AlreadyClosed)
    );
}

#[test]
fn non_authority_cannot_create_or_close() {
    let mut contract = proportional("lead.near");
    assert_eq!(
        contract.create_betcontext("mine".to_string(), "intruder.near".to_string()),
        Err(BetError::Unauthorized)
    );
    assert_eq!(contract.get_betcontext_count(), 0);
    contract
        .create_betcontext("the duel".to_string(), "lead.near".to_string())
        .unwrap();
    contract
        .bet_on_betcontext(1, 2, 7, "b.near".to_string(), 8)
        .unwrap();
    assert_eq!(
        contract.close_betcontext(1, 2, "intruder.near".to_string()),
        Err(BetError::Unauthorized)
    );
    // the context is still open: betting goes on
    contract
        .bet_on_betcontext(1, 1, 3, "c.near".to_string(), 4)
        .unwrap();
}

#[test]
fn bet_rejections_cover_every_error() {
    let mut contract = proportional("lead.near");
    contract
        .create_betcontext("the sprint".to_string(), "lead.near".to_string())
        .unwrap();
    assert_eq!(
        contract.bet_on_betcontext(2, 1, 5, "a.near".to_string(), 6),
        Err(BetError::ContextNotFound)
    );
    assert_eq!(
        contract.bet_on_betcontext(0, 1, 5, "a.near".to_string(), 6),
        Err(BetError::ContextNotFound)
    );
    assert_eq!(
        contract.bet_on_betcontext(1, 1, 0, "a.near".to_string(), 6),
        Err(BetError::InvalidAmount)
    );
    // the attached value must be strictly greater than the stake
    assert_eq!(
        contract.bet_on_betcontext(1, 1, 5, "a.near".to_string(), 5),
        Err(BetError::InsufficientAttachedValue)
    );
    assert_eq!(
        contract.bet_on_betcontext(1, 1, 5, "a.near".to_string(), 4),
        Err(BetError::InsufficientAttachedValue)
    );
    assert_eq!(contract.get_all_bets(1), Vec::<(String, u128)>::new());
    contract
        .close_betcontext(1, 1, "lead.near".to_string())
        .unwrap();
    assert_eq!(
        contract.bet_on_betcontext(1, 1, 5, "a.near".to_string(), 6),
        Err(BetError::ContextClosed)
    );
    assert_eq!(
        contract.close_betcontext(2, 1, "lead.near".to_string()),
        Err(BetError::ContextNotFound)
    );
}

#[test]
fn ids_count_up_from_one() {
    let mut contract = proportional("lead.near");
    for expected in 1..=5u128 {
        let id = contract
            .create_betcontext(format!("context {}", expected), "lead.near".to_string())
            .unwrap();
        assert_eq!(id, expected);
        assert_eq!(contract.get_betcontext_count(), expected);
    }
}

#[test]
fn widening_quotient_is_exact() {
    assert_eq!(mul_div(26, 7, 13), 14);
    assert_eq!(mul_div(26, 5, 13), 10);
    assert_eq!(mul_div(25, 7, 13), 13); // 175 / 13 truncates
    assert_eq!(mul_div(26 * NEAR, 7 * NEAR, 13 * NEAR), 14 * NEAR);
    let big = u128::MAX / 2;
    assert_eq!(mul_div(big, big, big), big);
    assert_eq!(mul_div(big, 1, big), 1);
}
