use vstd::prelude::*;

use crate::assoc::{
    assoc_find, lemma_find_entries, lemma_find_present, lemma_find_push, lemma_find_update,
    lemma_unique_push, lemma_unique_update, unique_keys, val_of,
};
use crate::errors::LendingError;
use crate::health::{
    collateral_value, csum, cterm, debt_products_fit, debt_value, dep_products_fit, dsum,
    fits_i128, health_fits, lemma_csum_mono, lemma_csum_update, lemma_dsum_mono, lemma_dsum_push,
    lemma_dsum_update, LTV_SCALE,
};
use crate::model::{
    has_index, key_index, lemma_entry_le_sum, lemma_key_index_is, lemma_sum_push,
    lemma_sum_update, sum_deposits, sum_debts, AssetMap, Pool, UserPosition,
};

use vstd::arithmetic::div_mod::lemma_div_of0;
use vstd::arithmetic::div_mod::lemma_div_nonincreasing;
use vstd::arithmetic::div_mod::lemma_div_pos_is_pos;
use vstd::arithmetic::mul::lemma_mul_nonnegative;
use vstd::arithmetic::mul::lemma_mul_strictly_positive;

verus! {

/// The smaller of two mathematical integers.
pub open spec fn min_val(a: int, b: int) -> int {
    if a <= b {
        a
    } else {
        b
    }
}

/// Which way funds must move to realize an operation.
#[derive(Clone, Copy, Debug, PartialEq, Eq, Structural)]
pub enum TransferDirection {
    /// From the user's custody into the engine's custody.
    UserToEngine,
    /// From the engine's custody to the user's custody.
    EngineToUser,
}

/// The value movement a host must perform to realize a successful operation.
/// The engine itself never moves funds; it only does the bookkeeping.
#[derive(Clone, Copy, Debug, PartialEq, Eq, Structural)]
pub struct TransferRequest {
    pub direction: TransferDirection,
    pub asset: u64,
    pub amount: i128,
}

/// The whole accounting state of the engine: the administrator identity, one
/// pool per initialized asset, one position per known user, and the per-asset
/// loan-to-value ratios and prices of the risk registry.
#[derive(Clone, Debug)]
pub struct LendingPool {
    pub owner: u64,
    pub pools: Vec<(u64, Pool)>,
    pub positions: Vec<(u64, UserPosition)>,
    pub ltvs: AssetMap,
    pub prices: AssetMap,
}

impl LendingPool {
    /// The pool record of `asset`, if the asset was initialized.
    pub open spec fn spec_pool(self, asset: u64) -> Option<Pool> {
        assoc_find(self.pools@, asset)
    }

    pub open spec fn has_pool(self, asset: u64) -> bool {
        self.spec_pool(asset) is Some
    }

    /// Total supplied to the pool of `asset`; zero for an uninitialized asset.
    pub open spec fn spec_supplied(self, asset: u64) -> int {
        match self.spec_pool(asset) {
            Some(p) => p.total_supplied as int,
            None => 0,
        }
    }

    /// Total borrowed from the pool of `asset`; zero for an uninitialized asset.
    pub open spec fn spec_borrowed(self, asset: u64) -> int {
        match self.spec_pool(asset) {
            Some(p) => p.total_borrowed as int,
            None => 0,
        }
    }

    /// A pool's free liquidity: what is supplied and not lent out.
    pub open spec fn spec_available(self, asset: u64) -> int {
        self.spec_supplied(asset) - self.spec_borrowed(asset)
    }

    pub open spec fn spec_price(self, asset: u64) -> int {
        self.prices.spec_get(asset)
    }

    pub open spec fn spec_ltv(self, asset: u64) -> int {
        self.ltvs.spec_get(asset)
    }

    /// The deposit ledger of `user`; empty for a never-before-seen user.
    pub open spec fn deps_of(self, user: u64) -> Seq<(u64, i128)> {
        match assoc_find(self.positions@, user) {
            Some(p) => p.deposits.entries@,
            None => Seq::empty(),
        }
    }

    /// The debt ledger of `user`; empty for a never-before-seen user.
    pub open spec fn debts_of(self, user: u64) -> Seq<(u64, i128)> {
        match assoc_find(self.positions@, user) {
            Some(p) => p.debts.entries@,
            None => Seq::empty(),
        }
    }

    pub open spec fn spec_deposit(self, user: u64, asset: u64) -> int {
        val_of(self.deps_of(user), asset)
    }

    pub open spec fn spec_debt(self, user: u64, asset: u64) -> int {
        val_of(self.debts_of(user), asset)
    }

    /// The user's risk-adjusted collateral value under current prices and
    /// loan-to-value ratios.
    pub open spec fn collateral_of(self, user: u64) -> int {
        collateral_value(self.deps_of(user), self.prices.entries@, self.ltvs.entries@)
    }

    /// The user's debt value under current prices.
    pub open spec fn debt_of(self, user: u64) -> int {
        debt_value(self.debts_of(user), self.prices.entries@)
    }

    /// Whether the health computation over the user's position stays within
    /// the 128-bit range.
    pub open spec fn user_health_fits(self, user: u64) -> bool {
        health_fits(
            self.deps_of(user),
            self.debts_of(user),
            self.prices.entries@,
            self.ltvs.entries@,
        )
    }

    /// Structural well-formedness: ledgers keyed uniquely, every pool liquid
    /// and matching its key, every balance non-negative, every loan-to-value
    /// ratio within scale.
    pub open spec fn wf(self) -> bool {
        &&& unique_keys(self.pools@)
        &&& forall|i: int|
            0 <= i < self.pools@.len() ==> ((#[trigger] self.pools@[i]).1.wf()
                && self.pools@[i].1.asset == self.pools@[i].0)
        &&& unique_keys(self.positions@)
        &&& forall|i: int| 0 <= i < self.positions@.len() ==> (#[trigger] self.positions@[i]).1.wf()
        &&& self.prices.wf()
        &&& self.ltvs.wf()
        &&& forall|a: u64| #[trigger] self.ltvs.spec_get(a) <= LTV_SCALE as int
    }

    /// Conservation: for every asset, the pool totals equal the sums of the
    /// user ledgers.
    pub open spec fn conserved(self) -> bool {
        &&& forall|a: u64| #[trigger] sum_deposits(self.positions@, a) == self.spec_supplied(a)
        &&& forall|a: u64| #[trigger] sum_debts(self.positions@, a) == self.spec_borrowed(a)
    }

    /// The full state invariant: every operation requires it and keeps it.
    pub open spec fn inv(self) -> bool {
        self.wf() && self.conserved()
    }

    /// Creates the engine with `admin` as administrator and no assets, users,
    /// prices or ratios.
    pub fn new(admin: u64) -> (r: LendingPool)
        ensures
            r.inv(),
            r.owner == admin,
            r.pools@.len() == 0,
            r.positions@.len() == 0,
            forall|a: u64| !r.has_pool(a),
            forall|a: u64| r.spec_price(a) == 0 && r.spec_ltv(a) == 0,
    {
        let r = LendingPool {
            owner: admin,
            pools: Vec::new(),
            positions: Vec::new(),
            ltvs: AssetMap::new(),
            prices: AssetMap::new(),
        };
        proof {
            assert forall|a: u64| !r.has_pool(a) by {
                assert(assoc_find(r.pools@, a) is None);
            }
            assert forall|a: u64|
                #[trigger] sum_deposits(r.positions@, a) == r.spec_supplied(a) by {
                assert(sum_deposits(r.positions@, a) == 0);
                assert(assoc_find(r.pools@, a) is None);
            }
            assert forall|a: u64| #[trigger] sum_debts(r.positions@, a) == r.spec_borrowed(a) by {
                assert(sum_debts(r.positions@, a) == 0);
                assert(assoc_find(r.pools@, a) is None);
            }
        }
        r
    }

    pub fn get_owner(&self) -> (r: u64)
        ensures
            r == self.owner,
    {
        self.owner
    }

    /// The index of the pool record of `asset`, if any.
    fn find_pool(&self, asset: u64) -> (r: Option<usize>)
        ensures
            match r {
                Some(i) => i < self.pools@.len() && self.pools@[i as int].0 == asset,
                None => forall|j: int|
                    0 <= j < self.pools@.len() ==> (#[trigger] self.pools@[j]).0 != asset,
            },
    {
        let n = self.pools.len();
        let mut i: usize = 0;
        while i < n
            invariant
                n == self.pools@.len(),
                0 <= i <= n,
                forall|j: int| 0 <= j < i ==> (#[trigger] self.pools@[j]).0 != asset,
            decreases n - i,
        {
            if self.pools[i].0 == asset {
                return Some(i);
            }
            i += 1;
        }
        None
    }

    /// The index of the position record of `user`, if any.
    fn find_user(&self, user: u64) -> (r: Option<usize>)
        ensures
            match r {
                Some(i) => i < self.positions@.len() && self.positions@[i as int].0 == user,
                None => forall|j: int|
                    0 <= j < self.positions@.len() ==> (#[trigger] self.positions@[j]).0 != user,
            },
    {
        let n = self.positions.len();
        let mut i: usize = 0;
        while i < n
            invariant
                n == self.positions@.len(),
                0 <= i <= n,
                forall|j: int| 0 <= j < i ==> (#[trigger] self.positions@[j]).0 != user,
            decreases n - i,
        {
            if self.positions[i].0 == user {
                return Some(i);
            }
            i += 1;
        }
        None
    }

    /// The pool of `asset`, or `NotInitialized` if the asset was never set up.
    pub fn get_pool(&self, asset: u64) -> (r: Result<Pool, LendingError>)
        requires
            self.wf(),
        ensures
            match r {
                Ok(p) => self.spec_pool(asset) == Some(p),
                Err(e) => e == LendingError::NotInitialized && !self.has_pool(asset),
            },
    {
        match self.find_pool(asset) {
            Some(i) => {
                proof {
                    lemma_find_present(self.pools@, i as int);
                }
                Ok(self.pools[i].1)
            },
            None => {
                proof {
                    lemma_find_entries(self.pools@, asset);
                }
                Err(LendingError::NotInitialized)
            },
        }
    }

    /// The position of `user`; an empty position for a never-before-seen user.
    pub fn get_user_pos(&self, user: u64) -> (r: UserPosition)
        requires
            self.wf(),
        ensures
            r.deposits.entries@ == self.deps_of(user),
            r.debts.entries@ == self.debts_of(user),
            r.wf(),
    {
        match self.find_user(user) {
            Some(i) => {
                proof {
                    lemma_find_present(self.positions@, i as int);
                }
                self.positions[i].1.duplicate()
            },
            None => {
                proof {
                    lemma_find_entries(self.positions@, user);
                }
                UserPosition::new()
            },
        }
    }

    /// The loan-to-value ratio of `asset` in basis points; zero if never set.
    pub fn get_ltv(&self, asset: u64) -> (r: u32)
        requires
            self.wf(),
        ensures
            r as int == self.spec_ltv(asset),
    {
        let v = self.ltvs.get(asset);
        proof {
            assert(self.ltvs.spec_get(asset) <= LTV_SCALE as int);
        }
        v as u32
    }

    /// The price of `asset`; zero if never set.
    pub fn get_price(&self, asset: u64) -> (r: i128)
        requires
            self.wf(),
        ensures
            r as int == self.spec_price(asset),
            r >= 0,
    {
        self.prices.get(asset)
    }

    /// The health of a position under current prices and ratios: its
    /// risk-adjusted collateral value and its debt value. Fails with
    /// `ArithmeticOverflow` exactly when some step of the computation leaves
    /// the 128-bit range.
    pub fn get_user_health(&self, pos: &UserPosition) -> (r: Result<(i128, i128), LendingError>)
        requires
            self.wf(),
            pos.wf(),
        ensures
            match r {
                Ok(v) => health_fits(
                    pos.deposits.entries@,
                    pos.debts.entries@,
                    self.prices.entries@,
                    self.ltvs.entries@,
                ) && v.0 as int == collateral_value(
                    pos.deposits.entries@,
                    self.prices.entries@,
                    self.ltvs.entries@,
                ) && v.1 as int == debt_value(pos.debts.entries@, self.prices.entries@) && v.0 >= 0
                    && v.1 >= 0,
                Err(e) => e == LendingError::ArithmeticOverflow && !health_fits(
                    pos.deposits.entries@,
                    pos.debts.entries@,
                    self.prices.entries@,
                    self.ltvs.entries@,
                ),
            },
    {
        let ghost deps = pos.deposits.entries@;
        let ghost debts = pos.debts.entries@;
        let ghost prices = self.prices.entries@;
        let ghost ltvs = self.ltvs.entries@;

        let n = pos.deposits.entries.len();
        let mut total_collateral: i128 = 0;
        let mut i: usize = 0;
        while i < n
            invariant
                n == deps.len(),
                deps == pos.deposits.entries@,
                debts == pos.debts.entries@,
                prices == self.prices.entries@,
                ltvs == self.ltvs.entries@,
                0 <= i <= n,
                self.wf(),
                pos.wf(),
                total_collateral >= 0,
                total_collateral as int == csum(deps, prices, ltvs, i as int),
                forall|j: int|
                    0 <= j < i ==> {
                        let amount = (#[trigger] deps[j]).1 as int;
                        let price = val_of(prices, deps[j].0);
                        let ltv = val_of(ltvs, deps[j].0);
                        fits_i128(amount * price) && fits_i128(amount * price * ltv)
                    },
            decreases n - i,
        {
            let (asset, amount) = pos.deposits.entries[i];
            let price = self.prices.get(asset);
            let ltv = self.ltvs.get(asset);
            proof {
                assert(deps[i as int].1 >= 0);
            }
            let value = match amount.checked_mul(price) {
                Some(v) => v,
                None => {
                    proof {
                        assert(!dep_products_fit(deps, prices, ltvs));
                    }
                    return Err(LendingError::ArithmeticOverflow);
                },
            };
            let scaled = match value.checked_mul(ltv) {
                Some(v) => v,
                None => {
                    proof {
                        assert(!dep_products_fit(deps, prices, ltvs));
                    }
                    return Err(LendingError::ArithmeticOverflow);
                },
            };
            proof {
                lemma_mul_nonnegative(amount as int, price as int);
                lemma_mul_nonnegative(amount as int * price as int, ltv as int);
                lemma_div_pos_is_pos(scaled as int, LTV_SCALE as int);
                lemma_div_nonincreasing(scaled as int, LTV_SCALE as int);
                lemma_div_of0(LTV_SCALE as int);
            }
            let term = match scaled.checked_div(LTV_SCALE) {
                Some(v) => v,
                None => {
                    // The divisor is the nonzero constant scale; this arm is
                    // unreachable.
                    proof {
                        assert(false);
                    }
                    return Err(LendingError::ArithmeticOverflow);
                },
            };
            proof {
                assert(term as int == cterm(amount as int, price as int, ltv as int));
            }
            total_collateral = match total_collateral.checked_add(term) {
                Some(v) => v,
                None => {
                    proof {
                        assert(csum(deps, prices, ltvs, i + 1) > i128::MAX as int);
                        lemma_csum_mono(deps, prices, ltvs, i + 1, deps.len() as int);
                        assert(!fits_i128(collateral_value(deps, prices, ltvs)));
                    }
                    return Err(LendingError::ArithmeticOverflow);
                },
            };
            i += 1;
        }

        let m = pos.debts.entries.len();
        let mut total_debt: i128 = 0;
        let mut k: usize = 0;
        while k < m
            invariant
                m == debts.len(),
                deps == pos.deposits.entries@,
                debts == pos.debts.entries@,
                prices == self.prices.entries@,
                ltvs == self.ltvs.entries@,
                0 <= k <= m,
                self.wf(),
                pos.wf(),
                total_debt >= 0,
                total_debt as int == dsum(debts, prices, k as int),
                dep_products_fit(deps, prices, ltvs),
                fits_i128(collateral_value(deps, prices, ltvs)),
                forall|j: int|
                    0 <= j < k ==> fits_i128((#[trigger] debts[j]).1 * val_of(prices, debts[j].0)),
            decreases m - k,
        {
            let (asset, amount) = pos.debts.entries[k];
            let price = self.prices.get(asset);
            proof {
                assert(debts[k as int].1 >= 0);
            }
            let term = match amount.checked_mul(price) {
                Some(v) => v,
                None => {
                    proof {
                        assert(!debt_products_fit(debts, prices));
                    }
                    return Err(LendingError::ArithmeticOverflow);
                },
            };
            proof {
                lemma_mul_nonnegative(amount as int, price as int);
            }
            total_debt = match total_debt.checked_add(term) {
                Some(v) => v,
                None => {
                    proof {
                        assert(dsum(debts, prices, k + 1) > i128::MAX as int);
                        lemma_dsum_mono(debts, prices, k + 1, debts.len() as int);
                        assert(!fits_i128(debt_value(debts, prices)));
                    }
                    return Err(LendingError::ArithmeticOverflow);
                },
            };
            k += 1;
        }

        Ok((total_collateral, total_debt))
    }

    /// Sets up the pool of a new asset with zero totals and, on the risk
    /// registry, a zero loan-to-value ratio and a zero price. Fails with
    /// `AlreadyInitialized` when the asset was set up before.
    pub fn init_pool(&mut self, asset: u64) -> (r: Result<(), LendingError>)
        requires
            old(self).inv(),
        ensures
            final(self).inv(),
            r is Err ==> *final(self) == *old(self),
            old(self).has_pool(asset) <==> r == Err::<(), LendingError>(LendingError::AlreadyInitialized),
            r is Err ==> r == Err::<(), LendingError>(LendingError::AlreadyInitialized),
            r is Ok ==> {
                &&& final(self).spec_pool(asset) == Some(
                    Pool { asset, total_supplied: 0, total_borrowed: 0, total_reserves: 0 },
                )
                &&& final(self).spec_ltv(asset) == 0
                &&& final(self).spec_price(asset) == 0
                &&& forall|a: u64|
                    a != asset ==> final(self).spec_pool(a) == old(self).spec_pool(a)
                &&& forall|a: u64|
                    a != asset ==> (final(self).spec_ltv(a) == old(self).spec_ltv(a)
                        && final(self).spec_price(a) == old(self).spec_price(a))
                &&& final(self).positions@ == old(self).positions@
                &&& final(self).owner == old(self).owner
            },
    {
        match self.find_pool(asset) {
            Some(i) => {
                proof {
                    lemma_find_present(self.pools@, i as int);
                }
                Err(LendingError::AlreadyInitialized)
            },
            None => {
                let pool = Pool { asset, total_supplied: 0, total_borrowed: 0, total_reserves: 0 };
                proof {
                    lemma_find_entries(self.pools@, asset);
                    lemma_unique_push(self.pools@, (asset, pool));
                }
                let ghost s0 = *self;
                self.pools.push((asset, pool));
                self.ltvs.set(asset, 0);
                self.prices.set(asset, 0);
                proof {
                    assert forall|a: u64| #[trigger] assoc_find(self.pools@, a) == (if a == asset {
                        Some(pool)
                    } else {
                        assoc_find(s0.pools@, a)
                    }) by {
                        lemma_find_push(s0.pools@, (asset, pool), a);
                    }
                    assert forall|i: int| 0 <= i < self.pools@.len() implies ((
                    #[trigger] self.pools@[i]).1.wf() && self.pools@[i].1.asset
                        == self.pools@[i].0) by {
                        if i < s0.pools@.len() {
                            assert(self.pools@[i] == s0.pools@[i]);
                        } else {
                            assert(self.pools@[i] == (asset, pool));
                        }
                    }
                    assert forall|a: u64| #[trigger] self.ltvs.spec_get(a) <= LTV_SCALE as int by {
                        if a != asset {
                            assert(self.ltvs.spec_get(a) == s0.ltvs.spec_get(a));
                        }
                    }
                    assert forall|a: u64|
                        #[trigger] sum_deposits(self.positions@, a) == self.spec_supplied(a) by {
                        assert(sum_deposits(s0.positions@, a) == s0.spec_supplied(a));
                    }
                    assert forall|a: u64|
                        #[trigger] sum_debts(self.positions@, a) == self.spec_borrowed(a) by {
                        assert(sum_debts(s0.positions@, a) == s0.spec_borrowed(a));
                    }
                }
                Ok(())
            },
        }
    }

    /// Sets the loan-to-value ratio of `asset`, in basis points out of 10000.
    /// Fails with `InvalidParameter` when the ratio is over the scale.
    pub fn set_ltv(&mut self, asset: u64, ltv: u32) -> (r: Result<(), LendingError>)
        requires
            old(self).inv(),
        ensures
            final(self).inv(),
            r is Err ==> *final(self) == *old(self),
            (ltv > 10000) <==> r == Err::<(), LendingError>(LendingError::InvalidParameter),
            r is Err ==> r == Err::<(), LendingError>(LendingError::InvalidParameter),
            r is Ok ==> {
                &&& final(self).spec_ltv(asset) == ltv
                &&& forall|a: u64| a != asset ==> final(self).spec_ltv(a) == old(self).spec_ltv(a)
                &&& final(self).prices == old(self).prices
                &&& final(self).pools@ == old(self).pools@
                &&& final(self).positions@ == old(self).positions@
                &&& final(self).owner == old(self).owner
            },
    {
        if ltv > 10000 {
            return Err(LendingError::InvalidParameter);
        }
        let ghost s0 = *self;
        self.ltvs.set(asset, ltv as i128);
        proof {
            assert forall|a: u64| #[trigger] self.ltvs.spec_get(a) <= LTV_SCALE as int by {
                if a != asset {
                    assert(self.ltvs.spec_get(a) == s0.ltvs.spec_get(a));
                }
            }
        }
        Ok(())
    }

    /// Sets the price of `asset`. Fails with `InvalidParameter` when the
    /// price is negative.
    pub fn set_price(&mut self, asset: u64, price: i128) -> (r: Result<(), LendingError>)
        requires
            old(self).inv(),
        ensures
            final(self).inv(),
            r is Err ==> *final(self) == *old(self),
            (price < 0) <==> r == Err::<(), LendingError>(LendingError::InvalidParameter),
            r is Err ==> r == Err::<(), LendingError>(LendingError::InvalidParameter),
            r is Ok ==> {
                &&& final(self).spec_price(asset) == price
                &&& forall|a: u64|
                    a != asset ==> final(self).spec_price(a) == old(self).spec_price(a)
                &&& final(self).ltvs == old(self).ltvs
                &&& final(self).pools@ == old(self).pools@
                &&& final(self).positions@ == old(self).positions@
                &&& final(self).owner == old(self).owner
            },
    {
        if price < 0 {
            return Err(LendingError::InvalidParameter);
        }
        self.prices.set(asset, price);
        Ok(())
    }

    /// Supplies `amount` of `asset` for `user`: the user's deposit balance
    /// and the pool's total supplied both grow by `amount`, and the host must
    /// move `amount` of `asset` from the user into the engine's custody.
    pub fn supply(&mut self, user: u64, asset: u64, amount: i128) -> (r: Result<
        TransferRequest,
        LendingError,
    >)
        requires
            old(self).inv(),
        ensures
            final(self).inv(),
            r is Err ==> *final(self) == *old(self),
            (amount <= 0) <==> r == Err::<TransferRequest, LendingError>(LendingError::InvalidAmount),
            amount > 0 ==> ((!old(self).has_pool(asset)) <==> r == Err::<
                TransferRequest,
                LendingError,
            >(LendingError::NotInitialized)),
            (amount > 0 && old(self).has_pool(asset)) ==> ((old(self).spec_supplied(asset) + amount
                > i128::MAX as int) <==> r == Err::<TransferRequest, LendingError>(
                LendingError::ArithmeticOverflow,
            )),
            r is Err ==> (r == Err::<TransferRequest, LendingError>(LendingError::InvalidAmount)
                || r == Err::<TransferRequest, LendingError>(LendingError::NotInitialized)
                || r == Err::<TransferRequest, LendingError>(LendingError::ArithmeticOverflow)),
            r is Ok ==> r == Ok::<TransferRequest, LendingError>(
                (TransferRequest {
                    direction: TransferDirection::UserToEngine,
                    asset: asset,
                    amount: amount,
                }),
            ),
            r is Ok ==> {
                &&& final(self).spec_deposit(user, asset) == old(self).spec_deposit(user, asset)
                    + amount
                &&& final(self).spec_supplied(asset) == old(self).spec_supplied(asset) + amount
                &&& final(self).spec_borrowed(asset) == old(self).spec_borrowed(asset)
                &&& forall|u2: u64, a2: u64|
                    !(u2 == user && a2 == asset) ==> final(self).spec_deposit(u2, a2)
                        == old(self).spec_deposit(u2, a2)
                &&& forall|u2: u64, a2: u64|
                    final(self).spec_debt(u2, a2) == old(self).spec_debt(u2, a2)
                &&& forall|a2: u64|
                    a2 != asset ==> final(self).spec_pool(a2) == old(self).spec_pool(a2)
                &&& final(self).prices == old(self).prices
                &&& final(self).ltvs == old(self).ltvs
                &&& final(self).owner == old(self).owner
            },
    {
        if amount <= 0 {
            return Err(LendingError::InvalidAmount);
        }
        let pi = match self.find_pool(asset) {
            Some(i) => i,
            None => {
                proof {
                    lemma_find_entries(self.pools@, asset);
                }
                return Err(LendingError::NotInitialized);
            },
        };
        proof {
            lemma_find_present(self.pools@, pi as int);
        }
        let pool = self.pools[pi].1;
        let new_supplied = match pool.total_supplied.checked_add(amount) {
            Some(v) => v,
            None => {
                return Err(LendingError::ArithmeticOverflow);
            },
        };
        let ghost s0 = *self;
        match self.find_user(user) {
            Some(ui) => {
                proof {
                    lemma_find_present(s0.positions@, ui as int);
                    lemma_entry_le_sum(s0.positions@, ui as int, asset);
                    assert(sum_deposits(s0.positions@, asset) == s0.spec_supplied(asset));
                }
                let mut pos = self.positions[ui].1.duplicate();
                let cur = pos.deposits.get(asset);
                pos.deposits.set(asset, cur + amount);
                proof {
                    lemma_unique_update(s0.positions@, ui as int, (user, pos));
                }
                self.positions[ui] = (user, pos);
                proof {
                    assert forall|i: int| 0 <= i < self.positions@.len() implies (
                    #[trigger] self.positions@[i]).1.wf() by {
                        if i != ui {
                            assert(self.positions@[i] == s0.positions@[i]);
                        }
                    }
                    assert forall|u2: u64| #[trigger] assoc_find(self.positions@, u2) == (if u2
                        == user {
                        Some((user, pos).1)
                    } else {
                        assoc_find(s0.positions@, u2)
                    }) by {
                        lemma_find_update(s0.positions@, ui as int, (user, pos), u2);
                    }
                    assert forall|a: u64|
                        #[trigger] sum_deposits(self.positions@, a) == sum_deposits(
                            s0.positions@,
                            a,
                        ) + (if a == asset {
                            amount as int
                        } else {
                            0
                        }) by {
                        assert(self.positions@ == s0.positions@.update(ui as int, (user, pos)));
                        lemma_sum_update(s0.positions@, ui as int, (user, pos), a);
                        assert(val_of(pos.deposits.entries@, a) == pos.deposits.spec_get(a));
                        assert(val_of(s0.positions@[ui as int].1.deposits.entries@, a)
                            == if a == asset { cur as int } else { pos.deposits.spec_get(a) });
                    }
                    assert forall|a: u64|
                        #[trigger] sum_debts(self.positions@, a) == sum_debts(
                            s0.positions@,
                            a,
                        ) by {
                        lemma_sum_update(s0.positions@, ui as int, (user, pos), a);
                        assert(pos.debts.entries@ == s0.positions@[ui as int].1.debts.entries@);
                    }
                    assert forall|u2: u64, a2: u64|
                        !(u2 == user && a2 == asset) implies self.spec_deposit(u2, a2)
                        == s0.spec_deposit(u2, a2) by {
                        if u2 == user {
                            assert(assoc_find(self.positions@, user) == Some(pos));
                            assert(assoc_find(s0.positions@, user) == Some(
                                s0.positions@[ui as int].1,
                            ));
                            assert(pos.deposits.spec_get(a2) == val_of(
                                s0.positions@[ui as int].1.deposits.entries@,
                                a2,
                            ));
                        }
                    }
                    assert forall|u2: u64, a2: u64| self.spec_debt(u2, a2) == s0.spec_debt(
                        u2,
                        a2,
                    ) by {
                        if u2 == user {
                            assert(assoc_find(self.positions@, user) == Some(pos));
                            assert(pos.debts.entries@ == s0.positions@[ui as int].1.debts.entries@);
                        }
                    }
                    assert(self.spec_deposit(user, asset) == s0.spec_deposit(user, asset) + amount);
                }
            },
            None => {
                let mut pos = UserPosition::new();
                pos.deposits.set(asset, amount);
                proof {
                    lemma_find_entries(s0.positions@, user);
                    lemma_unique_push(s0.positions@, (user, pos));
                }
                self.positions.push((user, pos));
                proof {
                    assert forall|i: int| 0 <= i < self.positions@.len() implies (
                    #[trigger] self.positions@[i]).1.wf() by {
                        if i < s0.positions@.len() {
                            assert(self.positions@[i] == s0.positions@[i]);
                        } else {
                            assert(self.positions@[i] == (user, pos));
                        }
                    }
                    assert forall|u2: u64| #[trigger] assoc_find(self.positions@, u2) == (if u2
                        == user {
                        Some((user, pos).1)
                    } else {
                        assoc_find(s0.positions@, u2)
                    }) by {
                        lemma_find_push(s0.positions@, (user, pos), u2);
                    }
                    assert forall|a: u64|
                        #[trigger] sum_deposits(self.positions@, a) == sum_deposits(
                            s0.positions@,
                            a,
                        ) + (if a == asset {
                            amount as int
                        } else {
                            0
                        }) by {
                        assert(self.positions@ == s0.positions@.push((user, pos)));
                        lemma_sum_push(s0.positions@, (user, pos), a);
                        assert(val_of(pos.deposits.entries@, a) == pos.deposits.spec_get(a));
                        assert(pos.deposits.spec_get(a) == if a == asset { amount as int } else { 0 });
                    }
                    assert forall|a: u64|
                        #[trigger] sum_debts(self.positions@, a) == sum_debts(
                            s0.positions@,
                            a,
                        ) by {
                        lemma_sum_push(s0.positions@, (user, pos), a);
                        assert(pos.debts.spec_get(a) == 0);
                        assert(val_of(pos.debts.entries@, a) == pos.debts.spec_get(a));
                    }
                    assert forall|u2: u64, a2: u64|
                        !(u2 == user && a2 == asset) implies self.spec_deposit(u2, a2)
                        == s0.spec_deposit(u2, a2) by {
                        if u2 == user {
                            assert(assoc_find(self.positions@, user) == Some(pos));
                            assert(assoc_find(s0.positions@, user) is None);
                            assert(pos.deposits.spec_get(a2) == 0);
                            assert(val_of(Seq::<(u64, i128)>::empty(), a2) == 0);
                        }
                    }
                    assert forall|u2: u64, a2: u64| self.spec_debt(u2, a2) == s0.spec_debt(
                        u2,
                        a2,
                    ) by {
                        if u2 == user {
                            assert(assoc_find(self.positions@, user) == Some(pos));
                            assert(assoc_find(s0.positions@, user) is None);
                            assert(pos.debts.spec_get(a2) == 0);
                            assert(val_of(Seq::<(u64, i128)>::empty(), a2) == 0);
                        }
                    }
                    assert(val_of(Seq::<(u64, i128)>::empty(), asset) == 0);
                    assert(self.spec_deposit(user, asset) == s0.spec_deposit(user, asset) + amount);
                }
            },
        }
        let ghost s1 = *self;
        let new_pool = Pool {
            asset,
            total_supplied: new_supplied,
            total_borrowed: pool.total_borrowed,
            total_reserves: pool.total_reserves,
        };
        proof {
            lemma_unique_update(s1.pools@, pi as int, (asset, new_pool));
        }
        self.pools[pi] = (asset, new_pool);
        proof {
            assert forall|i: int| 0 <= i < self.pools@.len() implies ((
            #[trigger] self.pools@[i]).1.wf() && self.pools@[i].1.asset == self.pools@[i].0) by {
                if i != pi {
                    assert(self.pools@[i] == s0.pools@[i]);
                }
            }
            assert forall|a: u64| #[trigger] assoc_find(self.pools@, a) == (if a == asset {
                Some(new_pool)
            } else {
                assoc_find(s0.pools@, a)
            }) by {
                lemma_find_update(s1.pools@, pi as int, (asset, new_pool), a);
            }
            assert forall|a: u64|
                #[trigger] sum_deposits(self.positions@, a) == self.spec_supplied(a) by {
                assert(sum_deposits(s0.positions@, a) == s0.spec_supplied(a));
                assert(sum_deposits(self.positions@, a) == sum_deposits(s1.positions@, a));
            }
            assert forall|a: u64| #[trigger] sum_debts(self.positions@, a) == self.spec_borrowed(
                a,
            ) by {
                assert(sum_debts(s0.positions@, a) == s0.spec_borrowed(a));
                assert(sum_debts(self.positions@, a) == sum_debts(s1.positions@, a));
            }
        }
        proof {
            assert(self.spec_deposit(user, asset) == s0.spec_deposit(user, asset) + amount);
            assert(self.spec_supplied(asset) == s0.spec_supplied(asset) + amount);
            assert(self.spec_borrowed(asset) == s0.spec_borrowed(asset));
        }
        Ok(TransferRequest { direction: TransferDirection::UserToEngine, asset, amount })
    }

    /// Borrows `amount` of `asset` for `user`: the user's existing collateral
    /// must cover the debt value projected after the borrow (the newly
    /// borrowed funds do not count as collateral), the pool must have the
    /// liquidity, the user's debt balance and the pool's total borrowed both
    /// grow by `amount`, and the host must move `amount` of `asset` from the
    /// engine's custody to the user. The collateral check is made before the
    /// liquidity check.
    pub fn borrow(&mut self, user: u64, asset: u64, amount: i128) -> (r: Result<
        TransferRequest,
        LendingError,
    >)
        requires
            old(self).inv(),
        ensures
            final(self).inv(),
            r is Err ==> *final(self) == *old(self),
            (amount <= 0) <==> r == Err::<TransferRequest, LendingError>(
                LendingError::InvalidAmount,
            ),
            amount > 0 ==> (r == Err::<TransferRequest, LendingError>(
                LendingError::ArithmeticOverflow,
            ) <==> (!old(self).user_health_fits(user) || (old(self).user_health_fits(user) && old(
                self,
            ).spec_price(asset) > 0 && (!fits_i128(amount * old(self).spec_price(asset))
                || !fits_i128(old(self).debt_of(user) + amount * old(self).spec_price(asset)))))),
            (amount > 0 && old(self).user_health_fits(user)) ==> ((old(self).spec_price(asset)
                <= 0) <==> r == Err::<TransferRequest, LendingError>(LendingError::PriceNotSet)),
            (amount > 0 && old(self).user_health_fits(user) && old(self).spec_price(asset) > 0
                && fits_i128(amount * old(self).spec_price(asset)) && fits_i128(
                old(self).debt_of(user) + amount * old(self).spec_price(asset),
            )) ==> ((old(self).collateral_of(user) < old(self).debt_of(user) + amount * old(
                self,
            ).spec_price(asset)) <==> r == Err::<TransferRequest, LendingError>(
                LendingError::InsufficientCollateral,
            )),
            (amount > 0 && old(self).user_health_fits(user) && old(self).spec_price(asset) > 0
                && fits_i128(amount * old(self).spec_price(asset)) && fits_i128(
                old(self).debt_of(user) + amount * old(self).spec_price(asset),
            ) && old(self).collateral_of(user) >= old(self).debt_of(user) + amount * old(
                self,
            ).spec_price(asset)) ==> ((!old(self).has_pool(asset)) <==> r == Err::<
                TransferRequest,
                LendingError,
            >(LendingError::NotInitialized)),
            (amount > 0 && old(self).user_health_fits(user) && old(self).spec_price(asset) > 0
                && fits_i128(amount * old(self).spec_price(asset)) && fits_i128(
                old(self).debt_of(user) + amount * old(self).spec_price(asset),
            ) && old(self).collateral_of(user) >= old(self).debt_of(user) + amount * old(
                self,
            ).spec_price(asset) && old(self).has_pool(asset)) ==> ((amount > old(
                self,
            ).spec_available(asset)) <==> r == Err::<TransferRequest, LendingError>(
                LendingError::InsufficientLiquidity,
            )),
            r is Err ==> (r == Err::<TransferRequest, LendingError>(LendingError::InvalidAmount)
                || r == Err::<TransferRequest, LendingError>(LendingError::ArithmeticOverflow)
                || r == Err::<TransferRequest, LendingError>(LendingError::PriceNotSet)
                || r == Err::<TransferRequest, LendingError>(
                LendingError::InsufficientCollateral,
            ) || r == Err::<TransferRequest, LendingError>(LendingError::NotInitialized)
                || r == Err::<TransferRequest, LendingError>(LendingError::InsufficientLiquidity)),
            r is Ok ==> {
                &&& r == Ok::<TransferRequest, LendingError>(
                    (TransferRequest {
                        direction: TransferDirection::EngineToUser,
                        asset: asset,
                        amount: amount,
                    }),
                )
                &&& final(self).spec_debt(user, asset) == old(self).spec_debt(user, asset) + amount
                &&& final(self).spec_borrowed(asset) == old(self).spec_borrowed(asset) + amount
                &&& final(self).spec_supplied(asset) == old(self).spec_supplied(asset)
                &&& final(self).debt_of(user) == old(self).debt_of(user) + amount * old(
                    self,
                ).spec_price(asset)
                &&& final(self).collateral_of(user) >= final(self).debt_of(user)
                &&& forall|u2: u64, a2: u64|
                    final(self).spec_deposit(u2, a2) == old(self).spec_deposit(u2, a2)
                &&& forall|u2: u64, a2: u64|
                    !(u2 == user && a2 == asset) ==> final(self).spec_debt(u2, a2) == old(
                        self,
                    ).spec_debt(u2, a2)
                &&& forall|a2: u64|
                    a2 != asset ==> final(self).spec_pool(a2) == old(self).spec_pool(a2)
                &&& final(self).prices == old(self).prices
                &&& final(self).ltvs == old(self).ltvs
                &&& final(self).owner == old(self).owner
            },
    {
        if amount <= 0 {
            return Err(LendingError::InvalidAmount);
        }
        let ghost s0 = *self;
        let pos0 = self.get_user_pos(user);
        let h = match self.get_user_health(&pos0) {
            Err(_) => {
                return Err(LendingError::ArithmeticOverflow);
            },
            Ok(h) => h,
        };
        let (collateral, debt) = h;
        proof {
            assert(collateral as int == s0.collateral_of(user));
            assert(debt as int == s0.debt_of(user));
        }
        let price = self.prices.get(asset);
        if price <= 0 {
            return Err(LendingError::PriceNotSet);
        }
        let new_debt_value = match amount.checked_mul(price) {
            Some(v) => v,
            None => {
                return Err(LendingError::ArithmeticOverflow);
            },
        };
        let projected = match debt.checked_add(new_debt_value) {
            Some(v) => v,
            None => {
                return Err(LendingError::ArithmeticOverflow);
            },
        };
        if collateral < projected {
            return Err(LendingError::InsufficientCollateral);
        }
        let pi = match self.find_pool(asset) {
            Some(i) => i,
            None => {
                proof {
                    lemma_find_entries(self.pools@, asset);
                }
                return Err(LendingError::NotInitialized);
            },
        };
        proof {
            lemma_find_present(self.pools@, pi as int);
            assert(self.pools@[pi as int].1.wf());
        }
        let pool = self.pools[pi].1;
        let available = pool.total_supplied - pool.total_borrowed;
        if amount > available {
            return Err(LendingError::InsufficientLiquidity);
        }
        let ui = match self.find_user(user) {
            Some(ui) => ui,
            None => {
                // A user with no position has no collateral, so the
                // collateral check above cannot have passed.
                proof {
                    lemma_find_entries(self.positions@, user);
                    lemma_mul_strictly_positive(amount as int, price as int);
                    assert(false);
                }
                return Err(LendingError::InsufficientCollateral);
            },
        };
        proof {
            lemma_find_present(self.positions@, ui as int);
            assert(self.positions@[ui as int].1.wf());
            lemma_entry_le_sum(s0.positions@, ui as int, asset);
            assert(sum_debts(s0.positions@, asset) == s0.spec_borrowed(asset));
        }
        let cur_debt = self.positions[ui].1.debts.get(asset);
        let ghost debts0 = s0.debts_of(user);
        let mut pos = pos0;
        pos.debts.set(asset, cur_debt + amount);
        proof {
            assert(val_of(debts0, asset) == cur_debt as int);
            if has_index(debts0, asset) {
                let j = key_index(debts0, asset);
                assert(0 <= j < debts0.len() && debts0[j].0 == asset);
                assert(unique_keys(debts0));
                lemma_find_present(debts0, j);
                assert(debts0[j].1 == cur_debt);
                lemma_dsum_update(
                    debts0,
                    s0.prices.entries@,
                    j,
                    (asset, (cur_debt + amount) as i128),
                    debts0.len() as int,
                );
                assert((((cur_debt + amount) as i128) - debts0[j].1) * val_of(
                    s0.prices.entries@,
                    asset,
                ) == amount * val_of(s0.prices.entries@, asset));
            } else {
                lemma_find_entries(debts0, asset);
                assert(cur_debt == 0);
                lemma_dsum_push(debts0, s0.prices.entries@, (asset, (cur_debt + amount) as i128));
            }
            assert(debt_value(pos.debts.entries@, s0.prices.entries@) == s0.debt_of(user) + amount
                * val_of(s0.prices.entries@, asset));
            lemma_unique_update(s0.positions@, ui as int, (user, pos));
        }
        self.positions[ui] = (user, pos);
        proof {
            assert forall|i: int| 0 <= i < self.positions@.len() implies (
            #[trigger] self.positions@[i]).1.wf() by {
                if i != ui {
                    assert(self.positions@[i] == s0.positions@[i]);
                }
            }
            assert forall|u2: u64| #[trigger] assoc_find(self.positions@, u2) == (if u2 == user {
                Some((user, pos).1)
            } else {
                assoc_find(s0.positions@, u2)
            }) by {
                lemma_find_update(s0.positions@, ui as int, (user, pos), u2);
            }
            assert forall|a: u64|
                #[trigger] sum_debts(self.positions@, a) == sum_debts(s0.positions@, a) + (if a
                    == asset {
                    amount as int
                } else {
                    0
                }) by {
                assert(self.positions@ == s0.positions@.update(ui as int, (user, pos)));
                lemma_sum_update(s0.positions@, ui as int, (user, pos), a);
                assert(val_of(pos.debts.entries@, a) == pos.debts.spec_get(a));
                assert(val_of(s0.positions@[ui as int].1.debts.entries@, a) == (if a == asset {
                    cur_debt as int
                } else {
                    pos.debts.spec_get(a)
                }));
            }
            assert forall|a: u64|
                #[trigger] sum_deposits(self.positions@, a) == sum_deposits(s0.positions@, a) by {
                lemma_sum_update(s0.positions@, ui as int, (user, pos), a);
                assert(pos.deposits.entries@ == s0.positions@[ui as int].1.deposits.entries@);
            }
            assert forall|u2: u64, a2: u64|
                !(u2 == user && a2 == asset) implies self.spec_debt(u2, a2) == s0.spec_debt(
                u2,
                a2,
            ) by {
                if u2 == user {
                    assert(assoc_find(self.positions@, user) == Some(pos));
                    assert(assoc_find(s0.positions@, user) == Some(s0.positions@[ui as int].1));
                    assert(pos.debts.spec_get(a2) == val_of(
                        s0.positions@[ui as int].1.debts.entries@,
                        a2,
                    ));
                }
            }
            assert forall|u2: u64, a2: u64| self.spec_deposit(u2, a2) == s0.spec_deposit(
                u2,
                a2,
            ) by {
                if u2 == user {
                    assert(assoc_find(self.positions@, user) == Some(pos));
                    assert(pos.deposits.entries@ == s0.positions@[ui as int].1.deposits.entries@);
                }
            }
            assert(self.spec_debt(user, asset) == s0.spec_debt(user, asset) + amount);
        }
        let ghost s1 = *self;
        let new_pool = Pool {
            asset,
            total_supplied: pool.total_supplied,
            total_borrowed: pool.total_borrowed + amount,
            total_reserves: pool.total_reserves,
        };
        proof {
            lemma_unique_update(s1.pools@, pi as int, (asset, new_pool));
        }
        self.pools[pi] = (asset, new_pool);
        proof {
            assert forall|i: int| 0 <= i < self.pools@.len() implies ((
            #[trigger] self.pools@[i]).1.wf() && self.pools@[i].1.asset == self.pools@[i].0) by {
                if i != pi {
                    assert(self.pools@[i] == s0.pools@[i]);
                }
            }
            assert forall|a: u64| #[trigger] assoc_find(self.pools@, a) == (if a == asset {
                Some(new_pool)
            } else {
                assoc_find(s0.pools@, a)
            }) by {
                lemma_find_update(s1.pools@, pi as int, (asset, new_pool), a);
            }
            assert forall|a: u64|
                #[trigger] sum_deposits(self.positions@, a) == self.spec_supplied(a) by {
                assert(sum_deposits(s0.positions@, a) == s0.spec_supplied(a));
                assert(sum_deposits(self.positions@, a) == sum_deposits(s1.positions@, a));
            }
            assert forall|a: u64| #[trigger] sum_debts(self.positions@, a) == self.spec_borrowed(
                a,
            ) by {
                assert(sum_debts(s0.positions@, a) == s0.spec_borrowed(a));
                assert(sum_debts(self.positions@, a) == sum_debts(s1.positions@, a));
            }
            assert(assoc_find(self.positions@, user) == Some(pos));
            assert(self.debt_of(user) == debt_value(pos.debts.entries@, s0.prices.entries@));
            assert(self.collateral_of(user) == collateral_value(
                pos.deposits.entries@,
                s0.prices.entries@,
                s0.ltvs.entries@,
            ));
            assert(pos.deposits.entries@ == s0.deps_of(user));
        }
        Ok(TransferRequest { direction: TransferDirection::EngineToUser, asset, amount })
    }

    /// The user's collateral value after their deposit balance for `asset`
    /// is set to `newv`, with everything else unchanged.
    pub open spec fn collateral_after_deposit_set(self, user: u64, asset: u64, newv: int) -> int {
        self.collateral_of(user) - cterm(
            self.spec_deposit(user, asset),
            self.spec_price(asset),
            self.spec_ltv(asset),
        ) + cterm(newv, self.spec_price(asset), self.spec_ltv(asset))
    }

    /// Whether the health computation stays within the 128-bit range after
    /// the user's deposit balance for `asset` is set to `newv`.
    pub open spec fn health_fits_after_deposit_set(
        self,
        user: u64,
        asset: u64,
        newv: int,
    ) -> bool {
        let deps = self.deps_of(user);
        let prices = self.prices.entries@;
        let ltvs = self.ltvs.entries@;
        &&& forall|i: int|
            0 <= i < deps.len() && (#[trigger] deps[i]).0 != asset ==> {
                let amount = deps[i].1 as int;
                let price = val_of(prices, deps[i].0);
                let ltv = val_of(ltvs, deps[i].0);
                fits_i128(amount * price) && fits_i128(amount * price * ltv)
            }
        &&& fits_i128(newv * self.spec_price(asset))
        &&& fits_i128(newv * self.spec_price(asset) * self.spec_ltv(asset))
        &&& fits_i128(self.collateral_after_deposit_set(user, asset, newv))
        &&& debt_products_fit(self.debts_of(user), prices)
        &&& fits_i128(self.debt_of(user))
    }

    /// Repays up to `amount` of the user's debt in `asset`: the repayment is
    /// capped at the outstanding debt, the user's debt balance and the pool's
    /// total borrowed both shrink by the capped amount, and the host must
    /// move that amount from the user into the engine's custody.
    pub fn repay(&mut self, user: u64, asset: u64, amount: i128) -> (r: Result<
        TransferRequest,
        LendingError,
    >)
        requires
            old(self).inv(),
        ensures
            final(self).inv(),
            r is Err ==> *final(self) == *old(self),
            (amount <= 0) <==> r == Err::<TransferRequest, LendingError>(
                LendingError::InvalidAmount,
            ),
            amount > 0 ==> ((!old(self).has_pool(asset)) <==> r == Err::<
                TransferRequest,
                LendingError,
            >(LendingError::NotInitialized)),
            (amount > 0 && old(self).has_pool(asset)) ==> ((old(self).spec_debt(user, asset) == 0)
                <==> r == Err::<TransferRequest, LendingError>(LendingError::NoDebt)),
            r is Err ==> (r == Err::<TransferRequest, LendingError>(LendingError::InvalidAmount)
                || r == Err::<TransferRequest, LendingError>(LendingError::NotInitialized)
                || r == Err::<TransferRequest, LendingError>(LendingError::NoDebt)),
            r is Ok ==> ({
                let actual = min_val(amount as int, old(self).spec_debt(user, asset));
                &&& r == Ok::<TransferRequest, LendingError>(
                    (TransferRequest {
                        direction: TransferDirection::UserToEngine,
                        asset: asset,
                        amount: actual as i128,
                    }),
                )
                &&& final(self).spec_debt(user, asset) == old(self).spec_debt(user, asset) - actual
                &&& final(self).spec_borrowed(asset) == old(self).spec_borrowed(asset) - actual
                &&& final(self).spec_supplied(asset) == old(self).spec_supplied(asset)
                &&& forall|u2: u64, a2: u64|
                    final(self).spec_deposit(u2, a2) == old(self).spec_deposit(u2, a2)
                &&& forall|u2: u64, a2: u64|
                    !(u2 == user && a2 == asset) ==> final(self).spec_debt(u2, a2) == old(
                        self,
                    ).spec_debt(u2, a2)
                &&& forall|a2: u64|
                    a2 != asset ==> final(self).spec_pool(a2) == old(self).spec_pool(a2)
                &&& final(self).prices == old(self).prices
                &&& final(self).ltvs == old(self).ltvs
                &&& final(self).owner == old(self).owner
            }),
    {
        if amount <= 0 {
            return Err(LendingError::InvalidAmount);
        }
        let pi = match self.find_pool(asset) {
            Some(i) => i,
            None => {
                proof {
                    lemma_find_entries(self.pools@, asset);
                }
                return Err(LendingError::NotInitialized);
            },
        };
        proof {
            lemma_find_present(self.pools@, pi as int);
        }
        let pool = self.pools[pi].1;
        let ui = match self.find_user(user) {
            Some(ui) => ui,
            None => {
                proof {
                    lemma_find_entries(self.positions@, user);
                    assert(val_of(Seq::<(u64, i128)>::empty(), asset) == 0);
                }
                return Err(LendingError::NoDebt);
            },
        };
        proof {
            lemma_find_present(self.positions@, ui as int);
            assert(self.positions@[ui as int].1.wf());
        }
        let cur = self.positions[ui].1.debts.get(asset);
        if cur == 0 {
            return Err(LendingError::NoDebt);
        }
        let actual = if amount <= cur {
            amount
        } else {
            cur
        };
        let ghost s0 = *self;
        proof {
            lemma_entry_le_sum(s0.positions@, ui as int, asset);
            assert(sum_debts(s0.positions@, asset) == s0.spec_borrowed(asset));
        }
        let mut pos = self.positions[ui].1.duplicate();
        pos.debts.set(asset, cur - actual);
        proof {
            lemma_unique_update(s0.positions@, ui as int, (user, pos));
        }
        self.positions[ui] = (user, pos);
        proof {
            assert forall|i: int| 0 <= i < self.positions@.len() implies (
            #[trigger] self.positions@[i]).1.wf() by {
                if i != ui {
                    assert(self.positions@[i] == s0.positions@[i]);
                }
            }
            assert forall|u2: u64| #[trigger] assoc_find(self.positions@, u2) == (if u2 == user {
                Some((user, pos).1)
            } else {
                assoc_find(s0.positions@, u2)
            }) by {
                lemma_find_update(s0.positions@, ui as int, (user, pos), u2);
            }
            assert forall|a: u64|
                #[trigger] sum_debts(self.positions@, a) == sum_debts(s0.positions@, a) + (if a
                    == asset {
                    -(actual as int)
                } else {
                    0
                }) by {
                assert(self.positions@ == s0.positions@.update(ui as int, (user, pos)));
                lemma_sum_update(s0.positions@, ui as int, (user, pos), a);
                assert(val_of(pos.debts.entries@, a) == pos.debts.spec_get(a));
                assert(val_of(s0.positions@[ui as int].1.debts.entries@, a) == (if a == asset {
                    cur as int
                } else {
                    pos.debts.spec_get(a)
                }));
            }
            assert forall|a: u64|
                #[trigger] sum_deposits(self.positions@, a) == sum_deposits(s0.positions@, a) by {
                lemma_sum_update(s0.positions@, ui as int, (user, pos), a);
                assert(pos.deposits.entries@ == s0.positions@[ui as int].1.deposits.entries@);
            }
            assert forall|u2: u64, a2: u64|
                !(u2 == user && a2 == asset) implies self.spec_debt(u2, a2) == s0.spec_debt(
                u2,
                a2,
            ) by {
                if u2 == user {
                    assert(assoc_find(self.positions@, user) == Some(pos));
                    assert(assoc_find(s0.positions@, user) == Some(s0.positions@[ui as int].1));
                    assert(pos.debts.spec_get(a2) == val_of(
                        s0.positions@[ui as int].1.debts.entries@,
                        a2,
                    ));
                }
            }
            assert forall|u2: u64, a2: u64| self.spec_deposit(u2, a2) == s0.spec_deposit(
                u2,
                a2,
            ) by {
                if u2 == user {
                    assert(assoc_find(self.positions@, user) == Some(pos));
                    assert(pos.deposits.entries@ == s0.positions@[ui as int].1.deposits.entries@);
                }
            }
            assert(self.spec_debt(user, asset) == s0.spec_debt(user, asset) - actual);
        }
        let ghost s1 = *self;
        let new_pool = Pool {
            asset,
            total_supplied: pool.total_supplied,
            total_borrowed: pool.total_borrowed - actual,
            total_reserves: pool.total_reserves,
        };
        proof {
            lemma_unique_update(s1.pools@, pi as int, (asset, new_pool));
        }
        self.pools[pi] = (asset, new_pool);
        proof {
            assert forall|i: int| 0 <= i < self.pools@.len() implies ((
            #[trigger] self.pools@[i]).1.wf() && self.pools@[i].1.asset == self.pools@[i].0) by {
                if i != pi {
                    assert(self.pools@[i] == s0.pools@[i]);
                }
            }
            assert forall|a: u64| #[trigger] assoc_find(self.pools@, a) == (if a == asset {
                Some(new_pool)
            } else {
                assoc_find(s0.pools@, a)
            }) by {
                lemma_find_update(s1.pools@, pi as int, (asset, new_pool), a);
            }
            assert forall|a: u64|
                #[trigger] sum_deposits(self.positions@, a) == self.spec_supplied(a) by {
                assert(sum_deposits(s0.positions@, a) == s0.spec_supplied(a));
                assert(sum_deposits(self.positions@, a) == sum_deposits(s1.positions@, a));
            }
            assert forall|a: u64| #[trigger] sum_debts(self.positions@, a) == self.spec_borrowed(
                a,
            ) by {
                assert(sum_debts(s0.positions@, a) == s0.spec_borrowed(a));
                assert(sum_debts(self.positions@, a) == sum_debts(s1.positions@, a));
            }
        }
        Ok(TransferRequest { direction: TransferDirection::UserToEngine, asset, amount: actual })
    }

    /// Withdraws up to `amount` of the user's deposit in `asset`: the request
    /// is capped at the deposit balance, the withdrawal must leave the
    /// position solvent and the pool liquid, the user's deposit balance and
    /// the pool's total supplied both shrink by the capped amount, and the
    /// host must move that amount from the engine's custody to the user. The
    /// collateral check is made before the liquidity check.
    pub fn withdraw(&mut self, user: u64, asset: u64, amount: i128) -> (r: Result<
        TransferRequest,
        LendingError,
    >)
        requires
            old(self).inv(),
        ensures
            final(self).inv(),
            r is Err ==> *final(self) == *old(self),
            (amount <= 0) <==> r == Err::<TransferRequest, LendingError>(
                LendingError::InvalidAmount,
            ),
            amount > 0 ==> ((!old(self).has_pool(asset)) <==> r == Err::<
                TransferRequest,
                LendingError,
            >(LendingError::NotInitialized)),
            (amount > 0 && old(self).has_pool(asset)) ==> ((old(self).spec_deposit(user, asset)
                == 0) <==> r == Err::<TransferRequest, LendingError>(
                LendingError::NothingToWithdraw,
            )),
            (amount > 0 && old(self).has_pool(asset) && old(self).spec_deposit(user, asset) > 0)
                ==> ({
                let newv = old(self).spec_deposit(user, asset) - min_val(
                    amount as int,
                    old(self).spec_deposit(user, asset),
                );
                (!old(self).health_fits_after_deposit_set(user, asset, newv)) <==> r == Err::<
                    TransferRequest,
                    LendingError,
                >(LendingError::ArithmeticOverflow)
            }),
            (amount > 0 && old(self).has_pool(asset) && old(self).spec_deposit(user, asset) > 0
                && old(self).health_fits_after_deposit_set(
                user,
                asset,
                old(self).spec_deposit(user, asset) - min_val(
                    amount as int,
                    old(self).spec_deposit(user, asset),
                ),
            )) ==> ({
                let newv = old(self).spec_deposit(user, asset) - min_val(
                    amount as int,
                    old(self).spec_deposit(user, asset),
                );
                (old(self).collateral_after_deposit_set(user, asset, newv) < old(self).debt_of(
                    user,
                )) <==> r == Err::<TransferRequest, LendingError>(
                    LendingError::InsufficientCollateral,
                )
            }),
            (amount > 0 && old(self).has_pool(asset) && old(self).spec_deposit(user, asset) > 0
                && old(self).health_fits_after_deposit_set(
                user,
                asset,
                old(self).spec_deposit(user, asset) - min_val(
                    amount as int,
                    old(self).spec_deposit(user, asset),
                ),
            ) && old(self).collateral_after_deposit_set(
                user,
                asset,
                old(self).spec_deposit(user, asset) - min_val(
                    amount as int,
                    old(self).spec_deposit(user, asset),
                ),
            ) >= old(self).debt_of(user)) ==> ((min_val(
                amount as int,
                old(self).spec_deposit(user, asset),
            ) > old(self).spec_available(asset)) <==> r == Err::<TransferRequest, LendingError>(
                LendingError::InsufficientLiquidity,
            )),
            r is Err ==> (r == Err::<TransferRequest, LendingError>(LendingError::InvalidAmount)
                || r == Err::<TransferRequest, LendingError>(LendingError::NotInitialized)
                || r == Err::<TransferRequest, LendingError>(LendingError::NothingToWithdraw)
                || r == Err::<TransferRequest, LendingError>(LendingError::ArithmeticOverflow)
                || r == Err::<TransferRequest, LendingError>(
                LendingError::InsufficientCollateral,
            ) || r == Err::<TransferRequest, LendingError>(LendingError::InsufficientLiquidity)),
            r is Ok ==> ({
                let actual = min_val(amount as int, old(self).spec_deposit(user, asset));
                &&& r == Ok::<TransferRequest, LendingError>(
                    (TransferRequest {
                        direction: TransferDirection::EngineToUser,
                        asset: asset,
                        amount: actual as i128,
                    }),
                )
                &&& final(self).spec_deposit(user, asset) == old(self).spec_deposit(user, asset)
                    - actual
                &&& final(self).spec_supplied(asset) == old(self).spec_supplied(asset) - actual
                &&& final(self).spec_borrowed(asset) == old(self).spec_borrowed(asset)
                &&& final(self).collateral_of(user) >= final(self).debt_of(user)
                &&& forall|u2: u64, a2: u64|
                    !(u2 == user && a2 == asset) ==> final(self).spec_deposit(u2, a2)
                        == old(self).spec_deposit(u2, a2)
                &&& forall|u2: u64, a2: u64|
                    final(self).spec_debt(u2, a2) == old(self).spec_debt(u2, a2)
                &&& forall|a2: u64|
                    a2 != asset ==> final(self).spec_pool(a2) == old(self).spec_pool(a2)
                &&& final(self).prices == old(self).prices
                &&& final(self).ltvs == old(self).ltvs
                &&& final(self).owner == old(self).owner
            }),
    {
        if amount <= 0 {
            return Err(LendingError::InvalidAmount);
        }
        let pi = match self.find_pool(asset) {
            Some(i) => i,
            None => {
                proof {
                    lemma_find_entries(self.pools@, asset);
                }
                return Err(LendingError::NotInitialized);
            },
        };
        proof {
            lemma_find_present(self.pools@, pi as int);
            assert(self.pools@[pi as int].1.wf());
        }
        let pool = self.pools[pi].1;
        let ui = match self.find_user(user) {
            Some(ui) => ui,
            None => {
                proof {
                    lemma_find_entries(self.positions@, user);
                    assert(val_of(Seq::<(u64, i128)>::empty(), asset) == 0);
                }
                return Err(LendingError::NothingToWithdraw);
            },
        };
        proof {
            lemma_find_present(self.positions@, ui as int);
            assert(self.positions@[ui as int].1.wf());
        }
        let cur = self.positions[ui].1.deposits.get(asset);
        if cur == 0 {
            return Err(LendingError::NothingToWithdraw);
        }
        let actual = if amount <= cur {
            amount
        } else {
            cur
        };
        let newv = cur - actual;
        let ghost s0 = *self;
        let ghost deps = s0.deps_of(user);
        let ghost j = key_index(deps, asset);
        let mut pos = self.positions[ui].1.duplicate();
        pos.deposits.set(asset, newv);
        proof {
            lemma_find_entries(deps, asset);
            let i0 = choose|i: int| 0 <= i < deps.len() && deps[i] == (asset, cur);
            lemma_key_index_is(deps, asset, i0);
            assert(pos.deposits.entries@ == deps.update(j, (asset, newv)));
            lemma_candidate_health(s0, user, asset, pos.deposits.entries@, j, newv);
            assert(pos.debts.entries@ == s0.debts_of(user));
        }
        match self.get_user_health(&pos) {
            Err(_) => {
                return Err(LendingError::ArithmeticOverflow);
            },
            Ok(h) => {
                let (collateral, debt) = h;
                proof {
                    assert(collateral as int == s0.collateral_after_deposit_set(
                        user,
                        asset,
                        newv as int,
                    ));
                    assert(debt as int == s0.debt_of(user));
                }
                if collateral < debt {
                    return Err(LendingError::InsufficientCollateral);
                }
                let available = pool.total_supplied - pool.total_borrowed;
                if actual > available {
                    return Err(LendingError::InsufficientLiquidity);
                }
                proof {
                    lemma_unique_update(s0.positions@, ui as int, (user, pos));
                }
                self.positions[ui] = (user, pos);
                proof {
                    assert forall|i: int| 0 <= i < self.positions@.len() implies (
                    #[trigger] self.positions@[i]).1.wf() by {
                        if i != ui {
                            assert(self.positions@[i] == s0.positions@[i]);
                        }
                    }
                    assert forall|u2: u64| #[trigger] assoc_find(self.positions@, u2) == (if u2
                        == user {
                        Some((user, pos).1)
                    } else {
                        assoc_find(s0.positions@, u2)
                    }) by {
                        lemma_find_update(s0.positions@, ui as int, (user, pos), u2);
                    }
                    assert forall|a: u64|
                        #[trigger] sum_deposits(self.positions@, a) == sum_deposits(
                            s0.positions@,
                            a,
                        ) + (if a == asset {
                            -(actual as int)
                        } else {
                            0
                        }) by {
                        assert(self.positions@ == s0.positions@.update(ui as int, (user, pos)));
                        lemma_sum_update(s0.positions@, ui as int, (user, pos), a);
                        assert(val_of(pos.deposits.entries@, a) == pos.deposits.spec_get(a));
                        assert(val_of(s0.positions@[ui as int].1.deposits.entries@, a) == (if a
                            == asset {
                            cur as int
                        } else {
                            pos.deposits.spec_get(a)
                        }));
                    }
                    assert forall|a: u64|
                        #[trigger] sum_debts(self.positions@, a) == sum_debts(
                            s0.positions@,
                            a,
                        ) by {
                        lemma_sum_update(s0.positions@, ui as int, (user, pos), a);
                        assert(pos.debts.entries@ == s0.positions@[ui as int].1.debts.entries@);
                    }
                    assert forall|u2: u64, a2: u64|
                        !(u2 == user && a2 == asset) implies self.spec_deposit(u2, a2)
                        == s0.spec_deposit(u2, a2) by {
                        if u2 == user {
                            assert(assoc_find(self.positions@, user) == Some(pos));
                            assert(assoc_find(s0.positions@, user) == Some(
                                s0.positions@[ui as int].1,
                            ));
                            assert(pos.deposits.spec_get(a2) == val_of(
                                s0.positions@[ui as int].1.deposits.entries@,
                                a2,
                            ));
                        }
                    }
                    assert forall|u2: u64, a2: u64| self.spec_debt(u2, a2) == s0.spec_debt(
                        u2,
                        a2,
                    ) by {
                        if u2 == user {
                            assert(assoc_find(self.positions@, user) == Some(pos));
                            assert(pos.debts.entries@
                                == s0.positions@[ui as int].1.debts.entries@);
                        }
                    }
                    assert(self.spec_deposit(user, asset) == s0.spec_deposit(user, asset)
                        - actual);
                }
                let ghost s1 = *self;
                let new_pool = Pool {
                    asset,
                    total_supplied: pool.total_supplied - actual,
                    total_borrowed: pool.total_borrowed,
                    total_reserves: pool.total_reserves,
                };
                proof {
                    lemma_unique_update(s1.pools@, pi as int, (asset, new_pool));
                }
                self.pools[pi] = (asset, new_pool);
                proof {
                    assert forall|i: int| 0 <= i < self.pools@.len() implies ((
                    #[trigger] self.pools@[i]).1.wf() && self.pools@[i].1.asset
                        == self.pools@[i].0) by {
                        if i != pi {
                            assert(self.pools@[i] == s0.pools@[i]);
                        }
                    }
                    assert forall|a: u64| #[trigger] assoc_find(self.pools@, a) == (if a == asset {
                        Some(new_pool)
                    } else {
                        assoc_find(s0.pools@, a)
                    }) by {
                        lemma_find_update(s1.pools@, pi as int, (asset, new_pool), a);
                    }
                    assert forall|a: u64|
                        #[trigger] sum_deposits(self.positions@, a) == self.spec_supplied(a) by {
                        assert(sum_deposits(s0.positions@, a) == s0.spec_supplied(a));
                        assert(sum_deposits(self.positions@, a) == sum_deposits(
                            s1.positions@,
                            a,
                        ));
                    }
                    assert forall|a: u64|
                        #[trigger] sum_debts(self.positions@, a) == self.spec_borrowed(a) by {
                        assert(sum_debts(s0.positions@, a) == s0.spec_borrowed(a));
                        assert(sum_debts(self.positions@, a) == sum_debts(s1.positions@, a));
                    }
                    assert(assoc_find(self.positions@, user) == Some(pos));
                    assert(self.collateral_of(user) == collateral_value(
                        pos.deposits.entries@,
                        s0.prices.entries@,
                        s0.ltvs.entries@,
                    ));
                    assert(self.debt_of(user) == debt_value(
                        pos.debts.entries@,
                        s0.prices.entries@,
                    ));
                }
                Ok(
                    TransferRequest {
                        direction: TransferDirection::EngineToUser,
                        asset,
                        amount: actual,
                    },
                )
            },
        }
    }
}

/// After a deposit entry is rewritten in place, the candidate ledger's health
/// is the old health moved by the change of that one entry: this ties the
/// evaluator's verdict on the candidate to the state before the change.
proof fn lemma_candidate_health(
    s: LendingPool,
    user: u64,
    asset: u64,
    cand: Seq<(u64, i128)>,
    j: int,
    newv: i128,
)
    requires
        s.wf(),
        assoc_find(s.positions@, user) is Some,
        0 <= j < s.deps_of(user).len(),
        s.deps_of(user)[j].0 == asset,
        cand == s.deps_of(user).update(j, (asset, newv)),
    ensures
        health_fits(cand, s.debts_of(user), s.prices.entries@, s.ltvs.entries@)
            == s.health_fits_after_deposit_set(user, asset, newv as int),
        collateral_value(cand, s.prices.entries@, s.ltvs.entries@) == s.collateral_after_deposit_set(
            user,
            asset,
            newv as int,
        ),
{
    let deps = s.deps_of(user);
    let prices = s.prices.entries@;
    let ltvs = s.ltvs.entries@;
    lemma_find_entries(s.positions@, user);
    let p = assoc_find(s.positions@, user)->Some_0;
    let iu = choose|i: int| 0 <= i < s.positions@.len() && s.positions@[i] == (user, p);
    assert(s.positions@[iu].1.wf());
    assert(unique_keys(deps));
    lemma_find_present(deps, j);
    lemma_csum_update(deps, prices, ltvs, j, (asset, newv), deps.len() as int);
    assert(collateral_value(cand, prices, ltvs) == collateral_value(deps, prices, ltvs) - cterm(
        deps[j].1 as int,
        val_of(prices, asset),
        val_of(ltvs, asset),
    ) + cterm(newv as int, val_of(prices, asset), val_of(ltvs, asset)));
    assert forall|i: int| 0 <= i < deps.len() && i != j implies (#[trigger] cand[i] == deps[i]
        && deps[i].0 != asset) by {
        assert(deps[i].0 != deps[j].0);
    }
    if health_fits(cand, s.debts_of(user), prices, ltvs) {
        assert forall|i: int|
            0 <= i < deps.len() && (#[trigger] deps[i]).0 != asset implies {
                let amount = deps[i].1 as int;
                let price = val_of(prices, deps[i].0);
                let ltv = val_of(ltvs, deps[i].0);
                fits_i128(amount * price) && fits_i128(amount * price * ltv)
            } by {
            assert(i != j);
            assert(cand[i] == deps[i]);
        }
        assert(cand[j] == (asset, newv));
        assert(s.health_fits_after_deposit_set(user, asset, newv as int));
    }
    if s.health_fits_after_deposit_set(user, asset, newv as int) {
        assert forall|i: int|
            0 <= i < cand.len() implies {
                let amount = (#[trigger] cand[i]).1 as int;
                let price = val_of(prices, cand[i].0);
                let ltv = val_of(ltvs, cand[i].0);
                fits_i128(amount * price) && fits_i128(amount * price * ltv)
            } by {
            if i == j {
                assert(cand[i] == (asset, newv));
            } else {
                assert(cand[i] == deps[i]);
                assert(deps[i].0 != asset);
            }
        }
        assert(health_fits(cand, s.debts_of(user), prices, ltvs));
    }
}

} // verus!
