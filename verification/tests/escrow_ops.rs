use voting_escrow::escrow::ContractError;
use voting_escrow::escrow::Escrow;
use voting_escrow::WEEK;

const OWNER: u64 = 1;
const GUARDIAN: u64 = 2;

fn fresh() -> Escrow {
    Escrow::new(OWNER, GUARDIAN, 0)
}

#[test]
fn initial_power_law() {
    // amount 1000 locked for 10 of 104 periods earns
    // 1000 * 10 / 104 = 96 voting power under truncating division,
    // decaying by 9.6 per period.
    let mut es = fresh();
    assert_eq!(es.create_lock(10, 1000, 10, 0), Ok(()));
    assert_eq!(es.get_user_voting_power(10, 0, None), 96);
    let info = es.get_user_lock_info(10).unwrap();
    assert_eq!(info.amount, 1000);
    assert_eq!(info.start, 0);
    assert_eq!(info.end, 10);
    // coefficient 10/104 in units of 10^-18
    assert_eq!(info.coefficient, 96153846153846153u128);
    // slope 96/10 in units of 10^-18 per period
    assert_eq!(es.accounts[0].history[0].slope, 9600000000000000000u128);
    assert_eq!(es.accounts[0].history[0].power, 96u128);
}

#[test]
fn decay_table() {
    let mut es = fresh();
    es.create_lock(10, 1000, 10, 0).unwrap();
    let expect = [96u128, 86, 76, 67, 57, 48, 38, 28, 19, 9, 0, 0];
    for (i, want) in expect.iter().enumerate() {
        let t = (i as u64) * WEEK;
        assert_eq!(es.get_user_voting_power(10, 0, Some(t)), *want, "period {}", i);
    }
}

#[test]
fn exact_expiry_at_end() {
    let mut es = fresh();
    es.create_lock(10, 777, 13, 0).unwrap();
    // one period before the end the power is still positive
    assert!(es.get_user_voting_power(10, 0, Some(12 * WEEK)) > 0);
    // at the end period it reads exactly zero
    assert_eq!(es.get_user_voting_power(10, 0, Some(13 * WEEK)), 0);
    assert_eq!(es.get_user_voting_power(10, 0, Some(50 * WEEK)), 0);
}

#[test]
fn duration_bounds() {
    let mut es = fresh();
    assert_eq!(
        es.create_lock(10, 1000, 0, 0),
        Err(ContractError::LockTimeLimitsError)
    );
    assert_eq!(
        es.create_lock(10, 1000, 105, 0),
        Err(ContractError::LockTimeLimitsError)
    );
    // boundary values succeed
    assert_eq!(es.create_lock(10, 1000, 1, 0), Ok(()));
    assert_eq!(es.create_lock(11, 1000, 104, 0), Ok(()));
}

#[test]
fn create_twice_fails() {
    let mut es = fresh();
    es.create_lock(10, 1000, 10, 0).unwrap();
    assert_eq!(
        es.create_lock(10, 500, 5, 0),
        Err(ContractError::LockAlreadyExists)
    );
}

#[test]
fn missing_lock_errors() {
    let mut es = fresh();
    assert_eq!(
        es.deposit_for(10, 100, 0),
        Err(ContractError::LockDoesntExist)
    );
    assert_eq!(
        es.extend_lock_time(10, 2, 0),
        Err(ContractError::LockDoesntExist)
    );
    assert_eq!(es.withdraw(10, 0), Err(ContractError::LockDoesntExist));
    assert_eq!(
        es.get_user_lock_info(10),
        Err(ContractError::LockDoesntExist)
    );
}

#[test]
fn expired_lock_rejects_changes() {
    let mut es = fresh();
    es.create_lock(10, 1000, 2, 0).unwrap();
    let late = 3 * WEEK;
    assert_eq!(es.deposit_for(10, 100, late), Err(ContractError::LockExpired));
    assert_eq!(
        es.extend_lock_time(10, 2, late),
        Err(ContractError::LockExpired)
    );
}

#[test]
fn withdraw_gating() {
    let mut es = fresh();
    es.create_lock(10, 1000, 2, 0).unwrap();
    assert_eq!(es.withdraw(10, WEEK), Err(ContractError::LockHasNotExpired));
    assert_eq!(es.withdraw(10, 2 * WEEK), Ok(1000));
    // the lock is gone afterwards
    assert_eq!(
        es.get_user_lock_info(10),
        Err(ContractError::LockDoesntExist)
    );
    assert_eq!(es.withdraw(10, 2 * WEEK), Err(ContractError::LockDoesntExist));
}

#[test]
fn deposit_adds_power() {
    // 1050 for 10 periods earns 100; a deposit of 525 at period 2 adds
    // 525 * 8/104 = 40 on top of the decayed 80, for 120 decaying by
    // 15 per period until the unchanged end.
    let mut es = fresh();
    es.create_lock(20, 1050, 10, 0).unwrap();
    assert_eq!(es.get_user_voting_power(20, 0, None), 100);
    assert_eq!(es.deposit_for(20, 525, 2 * WEEK), Ok(()));
    assert_eq!(es.get_user_voting_power(20, 2 * WEEK, None), 120);
    assert_eq!(es.get_user_voting_power(20, 0, Some(4 * WEEK)), 90);
    assert_eq!(es.get_user_voting_power(20, 0, Some(10 * WEEK)), 0);
    let info = es.get_user_lock_info(20).unwrap();
    assert_eq!(info.amount, 1575);
    assert_eq!(info.end, 10);
}

#[test]
fn extend_moves_expiry() {
    let mut es = fresh();
    es.create_lock(20, 1050, 10, 0).unwrap();
    assert_eq!(es.extend_lock_time(20, 10, 2 * WEEK), Ok(()));
    let info = es.get_user_lock_info(20).unwrap();
    assert_eq!(info.end, 20);
    assert_eq!(info.start, 2);
    // power recomputed from the full amount over 18 remaining periods:
    // 1050 * 18/104 = 181
    assert_eq!(es.get_user_voting_power(20, 2 * WEEK, None), 181);
    assert_eq!(es.get_user_voting_power(20, 0, Some(20 * WEEK)), 0);
}

#[test]
fn extend_limit_checks() {
    let mut es = fresh();
    es.create_lock(20, 1050, 100, 0).unwrap();
    // 100 remaining + 10 more exceeds the bound
    assert_eq!(
        es.extend_lock_time(20, 10, 0),
        Err(ContractError::LockTimeLimitsError)
    );
    assert_eq!(
        es.extend_lock_time(20, 0, 0),
        Err(ContractError::LockTimeLimitsError)
    );
    // after 6 periods there is room again
    assert_eq!(es.extend_lock_time(20, 10, 6 * WEEK), Ok(()));
}

#[test]
fn read_path_is_idempotent() {
    let mut es = fresh();
    es.create_lock(10, 1000, 10, 0).unwrap();
    let t = 7 * WEEK;
    let cursor_before = es.cursor;
    let a1 = es.get_user_voting_power(10, t, None);
    let g1 = es.get_total_voting_power(t, None);
    let a2 = es.get_user_voting_power(10, t, None);
    let g2 = es.get_total_voting_power(t, None);
    assert_eq!(a1, a2);
    assert_eq!(g1, g2);
    // reads leave the catch-up cursor untouched
    assert_eq!(es.cursor, cursor_before);
}

#[test]
fn balance_matches_power() {
    let mut es = fresh();
    es.create_lock(10, 1000, 10, 0).unwrap();
    let t = 3 * WEEK;
    assert_eq!(es.get_user_balance(10, t), es.get_user_voting_power(10, t, None));
}

#[test]
fn unknown_account_has_no_power() {
    let es = fresh();
    assert_eq!(es.get_user_voting_power(42, 0, None), 0);
    assert_eq!(es.get_total_voting_power(0, None), 0);
}
