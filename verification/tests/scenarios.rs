use lending_pool::{LendingError, LendingPool, TransferDirection, TransferRequest};

const ADMIN: u64 = 0;
const ASSET_A: u64 = 1;
const ASSET_B: u64 = 2;

fn deposit_of(engine: &LendingPool, user: u64, asset: u64) -> i128 {
    engine.get_user_pos(user).deposits.get(asset)
}

fn debt_of(engine: &LendingPool, user: u64, asset: u64) -> i128 {
    engine.get_user_pos(user).debts.get(asset)
}

#[test]
fn simple_supply_borrow() {
    let mut engine = LendingPool::new(ADMIN);
    assert_eq!(engine.init_pool(ASSET_A), Ok(()));
    assert_eq!(engine.set_ltv(ASSET_A, 7500), Ok(()));
    assert_eq!(engine.set_price(ASSET_A, 1_0000000), Ok(()));

    let user: u64 = 7;
    assert_eq!(
        engine.supply(user, ASSET_A, 1000),
        Ok(TransferRequest {
            direction: TransferDirection::UserToEngine,
            asset: ASSET_A,
            amount: 1000,
        })
    );
    assert_eq!(deposit_of(&engine, user, ASSET_A), 1000);
    let pool = engine.get_pool(ASSET_A).unwrap();
    assert_eq!(pool.total_supplied, 1000);
    assert_eq!(pool.total_borrowed, 0);

    // collateral_value = 1000 * 1_0000000 * 7500 / 10000 = 7_500_000_000
    let pos = engine.get_user_pos(user);
    assert_eq!(engine.get_user_health(&pos), Ok((7_500_000_000, 0)));

    // debt_value after borrowing 700 is 700 * 1_0000000 = 7_000_000_000.
    assert_eq!(
        engine.borrow(user, ASSET_A, 700),
        Ok(TransferRequest {
            direction: TransferDirection::EngineToUser,
            asset: ASSET_A,
            amount: 700,
        })
    );
    assert_eq!(debt_of(&engine, user, ASSET_A), 700);

    // 751 total would exceed the collateral value; 750 exactly matches it.
    assert_eq!(
        engine.borrow(user, ASSET_A, 51),
        Err(LendingError::InsufficientCollateral)
    );
    assert_eq!(engine.borrow(user, ASSET_A, 50).is_ok(), true);
    assert_eq!(
        engine.borrow(user, ASSET_A, 1),
        Err(LendingError::InsufficientCollateral)
    );
    assert_eq!(engine.get_pool(ASSET_A).unwrap().total_borrowed, 750);
}

#[test]
fn liquidity_exhaustion() {
    let mut engine = LendingPool::new(ADMIN);
    for asset in [ASSET_A, ASSET_B] {
        assert_eq!(engine.init_pool(asset), Ok(()));
        assert_eq!(engine.set_ltv(asset, 10000), Ok(()));
        assert_eq!(engine.set_price(asset, 1), Ok(()));
    }
    let (u1, u2, u3): (u64, u64, u64) = (10, 20, 30);

    assert!(engine.supply(u1, ASSET_A, 100).is_ok());
    assert!(engine.borrow(u1, ASSET_A, 100).is_ok());
    let pool = engine.get_pool(ASSET_A).unwrap();
    assert_eq!((pool.total_supplied, pool.total_borrowed), (100, 100));

    // A healthy user backed by asset B still cannot borrow from the drained
    // pool of asset A.
    assert!(engine.supply(u2, ASSET_B, 1000).is_ok());
    assert_eq!(
        engine.borrow(u2, ASSET_A, 1),
        Err(LendingError::InsufficientLiquidity)
    );

    // Nor withdraw from it once its free liquidity is lent out again.
    assert!(engine.supply(u2, ASSET_A, 5).is_ok());
    assert!(engine.supply(u3, ASSET_B, 1000).is_ok());
    assert!(engine.borrow(u3, ASSET_A, 5).is_ok());
    assert_eq!(
        engine.withdraw(u2, ASSET_A, 5),
        Err(LendingError::InsufficientLiquidity)
    );
    assert_eq!(deposit_of(&engine, u2, ASSET_A), 5);
}

#[test]
fn repay_overpay_capping() {
    let mut engine = LendingPool::new(ADMIN);
    assert_eq!(engine.init_pool(ASSET_B), Ok(()));
    assert_eq!(engine.set_ltv(ASSET_B, 10000), Ok(()));
    assert_eq!(engine.set_price(ASSET_B, 1), Ok(()));
    let user: u64 = 5;
    assert!(engine.supply(user, ASSET_B, 100).is_ok());
    assert!(engine.borrow(user, ASSET_B, 50).is_ok());

    // Overpaying a debt of 50 with 200 moves only 50 from the user.
    assert_eq!(
        engine.repay(user, ASSET_B, 200),
        Ok(TransferRequest {
            direction: TransferDirection::UserToEngine,
            asset: ASSET_B,
            amount: 50,
        })
    );
    assert_eq!(debt_of(&engine, user, ASSET_B), 0);
    assert_eq!(engine.get_pool(ASSET_B).unwrap().total_borrowed, 0);
    assert_eq!(
        engine.repay(user, ASSET_B, 1),
        Err(LendingError::NoDebt)
    );
}

#[test]
fn uninitialized_asset() {
    let mut engine = LendingPool::new(ADMIN);
    let user: u64 = 9;
    let unknown: u64 = 99;
    assert_eq!(
        engine.supply(user, unknown, 10),
        Err(LendingError::NotInitialized)
    );
    assert_eq!(
        engine.withdraw(user, unknown, 10),
        Err(LendingError::NotInitialized)
    );
    assert_eq!(
        engine.repay(user, unknown, 10),
        Err(LendingError::NotInitialized)
    );
    // Borrowing consults the price before it loads the pool, so an asset
    // that never saw `init_pool` fails on its unset price first.
    assert_eq!(
        engine.borrow(user, unknown, 10),
        Err(LendingError::PriceNotSet)
    );
    // With a price set and collateral at hand, the missing pool is reported.
    assert_eq!(engine.set_price(unknown, 5), Ok(()));
    assert_eq!(engine.init_pool(ASSET_A), Ok(()));
    assert_eq!(engine.set_ltv(ASSET_A, 10000), Ok(()));
    assert_eq!(engine.set_price(ASSET_A, 100), Ok(()));
    assert!(engine.supply(user, ASSET_A, 1000).is_ok());
    assert_eq!(
        engine.borrow(user, unknown, 1),
        Err(LendingError::NotInitialized)
    );
}

#[test]
fn withdraw_capping() {
    let mut engine = LendingPool::new(ADMIN);
    assert_eq!(engine.init_pool(ASSET_A), Ok(()));
    assert_eq!(engine.set_ltv(ASSET_A, 5000), Ok(()));
    assert_eq!(engine.set_price(ASSET_A, 3), Ok(()));
    let user: u64 = 4;
    assert!(engine.supply(user, ASSET_A, 100).is_ok());

    // Withdrawing more than the balance takes exactly the balance.
    assert_eq!(
        engine.withdraw(user, ASSET_A, 500),
        Ok(TransferRequest {
            direction: TransferDirection::EngineToUser,
            asset: ASSET_A,
            amount: 100,
        })
    );
    assert_eq!(deposit_of(&engine, user, ASSET_A), 0);
    assert_eq!(engine.get_pool(ASSET_A).unwrap().total_supplied, 0);
    assert_eq!(
        engine.withdraw(user, ASSET_A, 1),
        Err(LendingError::NothingToWithdraw)
    );
}

#[test]
fn withdraw_keeps_position_solvent() {
    let mut engine = LendingPool::new(ADMIN);
    assert_eq!(engine.init_pool(ASSET_A), Ok(()));
    assert_eq!(engine.set_ltv(ASSET_A, 7500), Ok(()));
    assert_eq!(engine.set_price(ASSET_A, 1), Ok(()));
    let (user, backer): (u64, u64) = (3, 8);
    assert!(engine.supply(backer, ASSET_A, 1000).is_ok());
    assert!(engine.supply(user, ASSET_A, 100).is_ok());
    assert!(engine.borrow(user, ASSET_A, 70).is_ok());

    // A withdrawal of 10 would leave collateral 90 * 0.75 = 67 below the
    // debt value 70: it is rejected and the state is left untouched.
    let pool_before = engine.get_pool(ASSET_A).unwrap();
    assert_eq!(
        engine.withdraw(user, ASSET_A, 10),
        Err(LendingError::InsufficientCollateral)
    );
    assert_eq!(deposit_of(&engine, user, ASSET_A), 100);
    assert_eq!(debt_of(&engine, user, ASSET_A), 70);
    assert_eq!(engine.get_pool(ASSET_A).unwrap(), pool_before);
}

#[test]
fn pool_totals_conserved_and_liquid() {
    let mut engine = LendingPool::new(ADMIN);
    assert_eq!(engine.init_pool(ASSET_A), Ok(()));
    assert_eq!(engine.set_ltv(ASSET_A, 10000), Ok(()));
    assert_eq!(engine.set_price(ASSET_A, 2), Ok(()));
    let users: [u64; 3] = [11, 12, 13];
    assert!(engine.supply(users[0], ASSET_A, 40).is_ok());
    assert!(engine.supply(users[1], ASSET_A, 60).is_ok());
    assert!(engine.supply(users[2], ASSET_A, 25).is_ok());
    assert!(engine.borrow(users[0], ASSET_A, 30).is_ok());
    assert!(engine.borrow(users[2], ASSET_A, 10).is_ok());
    assert_eq!(engine.repay(users[0], ASSET_A, 12).is_ok(), true);
    assert!(engine.withdraw(users[1], ASSET_A, 35).is_ok());

    // The pool totals equal the sums of the per-user ledgers, and the pool
    // stays liquid.
    let pool = engine.get_pool(ASSET_A).unwrap();
    let dep_sum: i128 = users.iter().map(|u| deposit_of(&engine, *u, ASSET_A)).sum();
    let debt_sum: i128 = users.iter().map(|u| debt_of(&engine, *u, ASSET_A)).sum();
    assert_eq!(dep_sum, pool.total_supplied);
    assert_eq!(debt_sum, pool.total_borrowed);
    assert!(pool.total_borrowed <= pool.total_supplied);
    assert_eq!(pool.total_reserves, 0);
}
