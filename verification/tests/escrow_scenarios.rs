use voting_escrow::escrow::ContractError;
use voting_escrow::escrow::Escrow;
use voting_escrow::WEEK;

const OWNER: u64 = 1;
const GUARDIAN: u64 = 2;

fn fresh() -> Escrow {
    Escrow::new(OWNER, GUARDIAN, 0)
}

/// The total must equal the sum of the accounts' powers across a
/// sequence of operations with gaps, when every lock's decay is exact
/// in whole tokens.
#[test]
fn global_matches_account_sum() {
    let mut es = fresh();
    // two locks of 1050 for 10 periods: 100 power each, 10 per period
    es.create_lock(10, 1050, 10, 0).unwrap();
    es.create_lock(20, 1050, 10, 0).unwrap();
    for i in 0..=12u64 {
        let t = i * WEEK;
        let sum =
            es.get_user_voting_power(10, 0, Some(t)) + es.get_user_voting_power(20, 0, Some(t));
        assert_eq!(es.get_total_voting_power(0, Some(t)), sum, "period {}", i);
    }
    // a deposit in the middle: 525 at period 2 adds 40 to account 20
    es.deposit_for(20, 525, 2 * WEEK).unwrap();
    for i in 2..=12u64 {
        let t = i * WEEK;
        let sum =
            es.get_user_voting_power(10, 0, Some(t)) + es.get_user_voting_power(20, 0, Some(t));
        assert_eq!(es.get_total_voting_power(0, Some(t)), sum, "period {}", i);
    }
    // a long idle gap, then a withdrawal triggers no drift
    assert_eq!(es.withdraw(10, 25 * WEEK), Ok(1050));
    assert_eq!(es.get_total_voting_power(25 * WEEK, None), 0);
    assert_eq!(es.get_user_voting_power(20, 25 * WEEK, None), 0);
}

/// A lock created after a long idle gap catches the global ledger up
/// over the expiry of the earlier lock.
#[test]
fn lazy_catch_up_over_gap() {
    let mut es = fresh();
    es.create_lock(10, 1050, 10, 0).unwrap();
    // nobody touches the ledger until period 30
    es.create_lock(20, 2100, 20, 30 * WEEK).unwrap();
    // 2100 * 20/104 = 403
    assert_eq!(es.get_user_voting_power(20, 30 * WEEK, None), 403);
    assert_eq!(es.get_total_voting_power(30 * WEEK, None), 403);
    // queries into the gap still see the old lock's decay
    assert_eq!(es.get_total_voting_power(0, Some(5 * WEEK)), 50);
    assert_eq!(es.get_total_voting_power(0, Some(10 * WEEK)), 0);
}

#[test]
fn blacklist_zeroing() {
    let mut es = fresh();
    es.create_lock(10, 1050, 10, 0).unwrap();
    es.create_lock(20, 1050, 10, 0).unwrap();
    let t = 2 * WEEK;
    // both decayed to 80 at period 2
    assert_eq!(es.get_total_voting_power(0, Some(t)), 160);
    let v = es.get_user_voting_power(10, t, None);
    assert_eq!(v, 80);
    assert_eq!(es.update_blacklist(OWNER, &vec![10], &vec![], t), Ok(()));
    // the appended account reads zero and the total drops by exactly v
    assert_eq!(es.get_user_voting_power(10, t, None), 0);
    assert_eq!(es.get_total_voting_power(t, None), 160 - v);
    // the other account is untouched
    assert_eq!(es.get_user_voting_power(20, t, None), 80);
}

#[test]
fn blacklist_blocks_operations() {
    let mut es = fresh();
    es.create_lock(10, 1050, 10, 0).unwrap();
    es.update_blacklist(GUARDIAN, &vec![10, 30], &vec![], 0).unwrap();
    assert_eq!(
        es.create_lock(30, 1000, 10, 0),
        Err(ContractError::AddressBlacklisted(30))
    );
    assert_eq!(
        es.deposit_for(10, 100, 0),
        Err(ContractError::AddressBlacklisted(10))
    );
    assert_eq!(
        es.extend_lock_time(10, 2, 0),
        Err(ContractError::AddressBlacklisted(10))
    );
}

#[test]
fn blacklist_authorization() {
    let mut es = fresh();
    es.create_lock(10, 1050, 10, 0).unwrap();
    assert_eq!(
        es.update_blacklist(99, &vec![10], &vec![], 0),
        Err(ContractError::Unauthorized)
    );
    // owner and guardian both may
    assert_eq!(es.update_blacklist(OWNER, &vec![10], &vec![], 0), Ok(()));
    assert_eq!(es.update_blacklist(GUARDIAN, &vec![], &vec![10], 0), Ok(()));
}

#[test]
fn blacklist_empty_update() {
    let mut es = fresh();
    es.create_lock(10, 1050, 10, 0).unwrap();
    // nothing to append, nothing to remove
    assert_eq!(
        es.update_blacklist(OWNER, &vec![], &vec![], 0),
        Err(ContractError::EmptyUpdate)
    );
    // removing an unlisted account is also nothing
    assert_eq!(
        es.update_blacklist(OWNER, &vec![], &vec![10], 0),
        Err(ContractError::EmptyUpdate)
    );
    es.update_blacklist(OWNER, &vec![10], &vec![], 0).unwrap();
    // appending an already listed account is nothing as well
    assert_eq!(
        es.update_blacklist(OWNER, &vec![10], &vec![], 0),
        Err(ContractError::EmptyUpdate)
    );
}

/// On removal from the blacklist the contribution is recomputed from
/// the full original amount over the current remaining duration: the
/// curve restarts fresh rather than resuming where it was zeroed.
#[test]
fn blacklist_removal_restores_fresh_curve() {
    let mut es = fresh();
    es.create_lock(10, 1040, 10, 0).unwrap();
    es.update_blacklist(OWNER, &vec![10], &vec![], 2 * WEEK).unwrap();
    assert_eq!(es.get_user_voting_power(10, 2 * WEEK, None), 0);
    assert_eq!(es.get_total_voting_power(2 * WEEK, None), 0);
    es.update_blacklist(OWNER, &vec![], &vec![10], 4 * WEEK).unwrap();
    // 1040 * coefficient(6) truncates to 59 over the 6 remaining periods
    assert_eq!(es.get_user_voting_power(10, 4 * WEEK, None), 59);
    assert_eq!(es.get_total_voting_power(4 * WEEK, None), 59);
    assert_eq!(es.get_user_voting_power(10, 0, Some(10 * WEEK)), 0);
    assert_eq!(es.get_total_voting_power(0, Some(10 * WEEK)), 0);
}

/// Staggered locks with whole-token decay rates: the total matches the
/// account sum at every period across creations, an expiry in the
/// middle and the final expiries.
#[test]
fn global_matches_staggered_accounts() {
    let mut es = fresh();
    // powers 100 over 10 and 120 over 8: both decay in whole tokens
    es.create_lock(10, 1050, 10, 0).unwrap();
    es.create_lock(20, 1561, 8, 0).unwrap();
    assert_eq!(es.get_user_voting_power(20, 0, None), 120);
    // a third account joins at period 3: power 50 over 5 periods
    es.create_lock(30, 1041, 5, 3 * WEEK).unwrap();
    assert_eq!(es.get_user_voting_power(30, 3 * WEEK, None), 50);
    for i in 3..=12u64 {
        let t = i * WEEK;
        let sum = es.get_user_voting_power(10, 0, Some(t))
            + es.get_user_voting_power(20, 0, Some(t))
            + es.get_user_voting_power(30, 0, Some(t));
        assert_eq!(es.get_total_voting_power(0, Some(t)), sum, "period {}", i);
    }
}

#[test]
fn blacklist_batch_update() {
    let mut es = fresh();
    es.create_lock(10, 1050, 10, 0).unwrap();
    es.create_lock(20, 1050, 10, 0).unwrap();
    // exclude both at once: the total loses both contributions
    es.update_blacklist(OWNER, &vec![10, 20], &vec![], WEEK).unwrap();
    assert_eq!(es.get_total_voting_power(WEEK, None), 0);
    // one call can append and remove at the same time
    es.update_blacklist(OWNER, &vec![30], &vec![10], 2 * WEEK).unwrap();
    assert_eq!(
        es.create_lock(30, 1000, 10, 2 * WEEK),
        Err(ContractError::AddressBlacklisted(30))
    );
    // account 10 is restored: 1050 over the 8 remaining periods
    assert_eq!(es.get_user_voting_power(10, 2 * WEEK, None), 80);
    assert_eq!(es.get_total_voting_power(2 * WEEK, None), 80);
    // account 20 stays excluded
    assert_eq!(
        es.deposit_for(20, 100, 2 * WEEK),
        Err(ContractError::AddressBlacklisted(20))
    );
}

#[test]
fn error_precedence() {
    let mut es = fresh();
    es.create_lock(10, 1050, 10, 0).unwrap();
    es.update_blacklist(OWNER, &vec![20], &vec![], 0).unwrap();
    // the blacklist check comes before the duration check
    assert_eq!(
        es.create_lock(20, 1000, 0, 0),
        Err(ContractError::AddressBlacklisted(20))
    );
    // the duration check comes before the existing-lock check
    assert_eq!(
        es.create_lock(10, 1000, 0, 0),
        Err(ContractError::LockTimeLimitsError)
    );
    // for an extension, a missing lock outranks a bad duration
    assert_eq!(
        es.extend_lock_time(30, 0, 0),
        Err(ContractError::LockDoesntExist)
    );
}

/// A new lock by the same account after a withdrawal starts from a
/// clean slate: the old slope has no influence.
#[test]
fn relock_after_withdraw() {
    let mut es = fresh();
    es.create_lock(10, 1050, 10, 0).unwrap();
    assert_eq!(es.withdraw(10, 11 * WEEK), Ok(1050));
    assert_eq!(es.create_lock(10, 2100, 20, 12 * WEEK), Ok(()));
    // 2100 * 20/104 = 403
    assert_eq!(es.get_user_voting_power(10, 12 * WEEK, None), 403);
    assert_eq!(es.get_total_voting_power(12 * WEEK, None), 403);
    assert_eq!(es.get_total_voting_power(0, Some(32 * WEEK)), 0);
}
