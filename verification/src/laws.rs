use vstd::prelude::*;

use crate::assoc::lemma_find_entries;
use crate::engine::LendingPool;
use crate::model::{sum_deposits, sum_debts};

verus! {

/// Liquidity law: in every state satisfying the engine invariant — which
/// every operation requires and re-establishes — no pool owes more than it
/// holds: `0 <= total_borrowed <= total_supplied` for every asset.
pub proof fn lemma_pool_liquidity(s: LendingPool, asset: u64)
    requires
        s.inv(),
    ensures
        0 <= s.spec_borrowed(asset),
        s.spec_borrowed(asset) <= s.spec_supplied(asset),
{
    lemma_find_entries(s.pools@, asset);
    match s.spec_pool(asset) {
        Some(p) => {
            let i = choose|i: int| 0 <= i < s.pools@.len() && s.pools@[i] == (asset, p);
            assert(s.pools@[i].1.wf());
        },
        None => {},
    }
}

/// Conservation law: in every state satisfying the engine invariant, the sum
/// of all users' deposit balances in an asset equals that pool's total
/// supplied, and the sum of all debt balances equals its total borrowed.
pub proof fn lemma_conservation(s: LendingPool, asset: u64)
    requires
        s.inv(),
    ensures
        sum_deposits(s.positions@, asset) == s.spec_supplied(asset),
        sum_debts(s.positions@, asset) == s.spec_borrowed(asset),
{
}

} // verus!
