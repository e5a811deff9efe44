use lending_pool::{LendingError, LendingPool};

const ADMIN: u64 = 0;
const ASSET: u64 = 1;
const USER: u64 = 6;

fn ready_engine() -> LendingPool {
    let mut engine = LendingPool::new(ADMIN);
    assert_eq!(engine.init_pool(ASSET), Ok(()));
    assert_eq!(engine.set_ltv(ASSET, 7500), Ok(()));
    assert_eq!(engine.set_price(ASSET, 1_0000000), Ok(()));
    engine
}

#[test]
fn amounts_must_be_positive() {
    let mut engine = ready_engine();
    for amount in [0i128, -3i128] {
        assert_eq!(engine.supply(USER, ASSET, amount), Err(LendingError::InvalidAmount));
        assert_eq!(engine.withdraw(USER, ASSET, amount), Err(LendingError::InvalidAmount));
        assert_eq!(engine.repay(USER, ASSET, amount), Err(LendingError::InvalidAmount));
        assert_eq!(engine.borrow(USER, ASSET, amount), Err(LendingError::InvalidAmount));
    }
}

#[test]
fn zero_balances_are_reported() {
    let mut engine = ready_engine();
    assert_eq!(engine.withdraw(USER, ASSET, 10), Err(LendingError::NothingToWithdraw));
    assert_eq!(engine.repay(USER, ASSET, 10), Err(LendingError::NoDebt));
}

#[test]
fn double_initialization_is_rejected() {
    let mut engine = ready_engine();
    assert_eq!(engine.init_pool(ASSET), Err(LendingError::AlreadyInitialized));
    // The pool keeps its registry values.
    assert_eq!(engine.get_ltv(ASSET), 7500);
    assert_eq!(engine.get_price(ASSET), 1_0000000);
}

#[test]
fn registry_parameters_are_validated() {
    let mut engine = ready_engine();
    assert_eq!(engine.set_ltv(ASSET, 10001), Err(LendingError::InvalidParameter));
    assert_eq!(engine.set_ltv(ASSET, 10000), Ok(()));
    assert_eq!(engine.set_price(ASSET, -1), Err(LendingError::InvalidParameter));
    assert_eq!(engine.set_price(ASSET, 0), Ok(()));
    assert_eq!(engine.get_ltv(ASSET), 10000);
    assert_eq!(engine.get_price(ASSET), 0);
}

#[test]
fn supply_overflow_is_detected() {
    let mut engine = ready_engine();
    assert!(engine.supply(USER, ASSET, i128::MAX).is_ok());
    assert_eq!(engine.supply(USER, ASSET, 1), Err(LendingError::ArithmeticOverflow));
    // The failure left the ledgers untouched.
    assert_eq!(engine.get_user_pos(USER).deposits.get(ASSET), i128::MAX);
    assert_eq!(engine.get_pool(ASSET).unwrap().total_supplied, i128::MAX);
}

#[test]
fn health_overflow_is_detected() {
    let mut engine = LendingPool::new(ADMIN);
    assert_eq!(engine.init_pool(ASSET), Ok(()));
    assert_eq!(engine.set_ltv(ASSET, 10000), Ok(()));
    assert_eq!(engine.set_price(ASSET, i128::MAX), Ok(()));
    assert!(engine.supply(USER, ASSET, 2).is_ok());

    // 2 * i128::MAX leaves the 128-bit range inside the evaluator.
    let pos = engine.get_user_pos(USER);
    assert_eq!(engine.get_user_health(&pos), Err(LendingError::ArithmeticOverflow));
    assert_eq!(engine.borrow(USER, ASSET, 1), Err(LendingError::ArithmeticOverflow));
    // 1 * i128::MAX fits, but scaling it by the ratio does not.
    assert_eq!(engine.withdraw(USER, ASSET, 1), Err(LendingError::ArithmeticOverflow));
    assert_eq!(engine.get_user_pos(USER).deposits.get(ASSET), 2);
}

#[test]
fn borrow_debt_value_overflow_is_detected() {
    let mut engine = LendingPool::new(ADMIN);
    assert_eq!(engine.init_pool(ASSET), Ok(()));
    assert_eq!(engine.set_ltv(ASSET, 10000), Ok(()));
    assert_eq!(engine.set_price(ASSET, 2), Ok(()));
    assert!(engine.supply(USER, ASSET, 1000).is_ok());
    // The projected debt value i128::MAX * 2 cannot be computed.
    assert_eq!(
        engine.borrow(USER, ASSET, i128::MAX),
        Err(LendingError::ArithmeticOverflow)
    );
    assert_eq!(engine.get_user_pos(USER).debts.get(ASSET), 0);
}

#[test]
fn health_formula_is_exact() {
    let mut engine = LendingPool::new(ADMIN);
    assert_eq!(engine.init_pool(ASSET), Ok(()));
    assert_eq!(engine.set_ltv(ASSET, 7500), Ok(()));
    // $1.50 at a 7-decimal scale.
    assert_eq!(engine.set_price(ASSET, 1_5000000), Ok(()));
    assert!(engine.supply(USER, ASSET, 7).is_ok());
    // 7 * 1_5000000 * 7500 / 10000 = 7_875_0000
    let pos = engine.get_user_pos(USER);
    assert_eq!(engine.get_user_health(&pos), Ok((7875_0000, 0)));
}

#[test]
fn health_division_rounds_down() {
    let mut engine = LendingPool::new(ADMIN);
    assert_eq!(engine.init_pool(ASSET), Ok(()));
    assert_eq!(engine.set_ltv(ASSET, 1), Ok(()));
    assert_eq!(engine.set_price(ASSET, 9999), Ok(()));
    assert!(engine.supply(USER, ASSET, 1).is_ok());
    // 1 * 9999 * 1 / 10000 rounds down to zero collateral.
    let pos = engine.get_user_pos(USER);
    assert_eq!(engine.get_user_health(&pos), Ok((0, 0)));
}

#[test]
fn failed_operations_change_nothing() {
    let mut engine = ready_engine();
    assert!(engine.supply(USER, ASSET, 100).is_ok());
    assert!(engine.borrow(USER, ASSET, 70).is_ok());
    let pool = engine.get_pool(ASSET).unwrap();
    let pos = engine.get_user_pos(USER);

    assert!(engine.borrow(USER, ASSET, 1000).is_err());
    assert!(engine.withdraw(USER, ASSET, 1000).is_err());
    assert!(engine.supply(USER, 42, 5).is_err());
    assert!(engine.repay(USER, 42, 5).is_err());

    let pool_after = engine.get_pool(ASSET).unwrap();
    let pos_after = engine.get_user_pos(USER);
    assert_eq!(pool_after, pool);
    assert_eq!(pos_after.deposits.get(ASSET), pos.deposits.get(ASSET));
    assert_eq!(pos_after.debts.get(ASSET), pos.debts.get(ASSET));
    assert_eq!(engine.get_owner(), ADMIN);
}

#[test]
fn supply_works_for_a_new_and_a_known_user() {
    let mut engine = ready_engine();
    assert!(engine.supply(USER, ASSET, 40).is_ok());
    assert!(engine.supply(USER, ASSET, 2).is_ok());
    assert_eq!(engine.get_user_pos(USER).deposits.get(ASSET), 42);
    assert_eq!(engine.get_pool(ASSET).unwrap().total_supplied, 42);
}
