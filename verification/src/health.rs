use vstd::prelude::*;

use vstd::arithmetic::div_mod::{lemma_div_nonincreasing, lemma_div_pos_is_pos};
use vstd::arithmetic::mul::{
    lemma_mul_is_distributive_sub_other_way, lemma_mul_nonnegative,
};

use crate::assoc::{lemma_val_of_nonneg, nonneg_vals, unique_keys, val_of};

verus! {

/// The scale of a loan-to-value ratio: basis points out of 10000.
pub const LTV_SCALE: i128 = 10000;

/// Whether a mathematical value fits the 128-bit signed range.
pub open spec fn fits_i128(x: int) -> bool {
    i128::MIN <= x <= i128::MAX
}

/// One deposit's contribution to the risk-adjusted collateral value:
/// `floor(amount * price * ltv / 10000)`.
pub open spec fn cterm(amount: int, price: int, ltv: int) -> int {
    (amount * price * ltv) / (LTV_SCALE as int)
}

/// The collateral value of the first `n` deposit entries.
pub open spec fn csum(
    deps: Seq<(u64, i128)>,
    prices: Seq<(u64, i128)>,
    ltvs: Seq<(u64, i128)>,
    n: int,
) -> int
    decreases n,
{
    if n <= 0 {
        0
    } else {
        csum(deps, prices, ltvs, n - 1) + cterm(
            deps[n - 1].1 as int,
            val_of(prices, deps[n - 1].0),
            val_of(ltvs, deps[n - 1].0),
        )
    }
}

/// The risk-adjusted value of a full deposit ledger:
/// `sum of floor(amount * price * ltv / 10000)` over its entries.
pub open spec fn collateral_value(
    deps: Seq<(u64, i128)>,
    prices: Seq<(u64, i128)>,
    ltvs: Seq<(u64, i128)>,
) -> int {
    csum(deps, prices, ltvs, deps.len() as int)
}

/// The debt value of the first `n` debt entries.
pub open spec fn dsum(debts: Seq<(u64, i128)>, prices: Seq<(u64, i128)>, n: int) -> int
    decreases n,
{
    if n <= 0 {
        0
    } else {
        dsum(debts, prices, n - 1) + debts[n - 1].1 * val_of(prices, debts[n - 1].0)
    }
}

/// The value of a full debt ledger: `sum of amount * price` over its entries.
pub open spec fn debt_value(debts: Seq<(u64, i128)>, prices: Seq<(u64, i128)>) -> int {
    dsum(debts, prices, debts.len() as int)
}

/// Every intermediate product of the collateral computation stays in the
/// 128-bit range.
pub open spec fn dep_products_fit(
    deps: Seq<(u64, i128)>,
    prices: Seq<(u64, i128)>,
    ltvs: Seq<(u64, i128)>,
) -> bool {
    forall|i: int|
        0 <= i < deps.len() ==> {
            let amount = (#[trigger] deps[i]).1 as int;
            let price = val_of(prices, deps[i].0);
            let ltv = val_of(ltvs, deps[i].0);
            fits_i128(amount * price) && fits_i128(amount * price * ltv)
        }
}

/// Every product of the debt computation stays in the 128-bit range.
pub open spec fn debt_products_fit(debts: Seq<(u64, i128)>, prices: Seq<(u64, i128)>) -> bool {
    forall|i: int|
        0 <= i < debts.len() ==> fits_i128(
            (#[trigger] debts[i]).1 * val_of(prices, debts[i].0),
        )
}

/// The whole health computation over a position stays in the 128-bit range:
/// exactly then does the evaluator return a value rather than an overflow.
pub open spec fn health_fits(
    deps: Seq<(u64, i128)>,
    debts: Seq<(u64, i128)>,
    prices: Seq<(u64, i128)>,
    ltvs: Seq<(u64, i128)>,
) -> bool {
    &&& dep_products_fit(deps, prices, ltvs)
    &&& fits_i128(collateral_value(deps, prices, ltvs))
    &&& debt_products_fit(debts, prices)
    &&& fits_i128(debt_value(debts, prices))
}

/// A collateral term of non-negative inputs is non-negative and bounded by
/// the undivided product.
pub proof fn lemma_cterm_bounds(amount: int, price: int, ltv: int)
    requires
        amount >= 0,
        price >= 0,
        ltv >= 0,
    ensures
        0 <= cterm(amount, price, ltv),
        cterm(amount, price, ltv) <= amount * price * ltv,
{
    lemma_mul_nonnegative(amount, price);
    lemma_mul_nonnegative(amount * price, ltv);
    lemma_div_pos_is_pos(amount * price * ltv, LTV_SCALE as int);
    lemma_div_nonincreasing(amount * price * ltv, LTV_SCALE as int);
}

/// With non-negative ledgers the partial collateral sums grow with `n`.
pub proof fn lemma_csum_mono(
    deps: Seq<(u64, i128)>,
    prices: Seq<(u64, i128)>,
    ltvs: Seq<(u64, i128)>,
    n: int,
    m: int,
)
    requires
        nonneg_vals(deps),
        nonneg_vals(prices),
        nonneg_vals(ltvs),
        0 <= n <= m <= deps.len(),
    ensures
        0 <= csum(deps, prices, ltvs, n) <= csum(deps, prices, ltvs, m),
    decreases m,
{
    if m > 0 {
        lemma_val_of_nonneg(prices, deps[m - 1].0);
        lemma_val_of_nonneg(ltvs, deps[m - 1].0);
        lemma_cterm_bounds(
            deps[m - 1].1 as int,
            val_of(prices, deps[m - 1].0),
            val_of(ltvs, deps[m - 1].0),
        );
        if n == m {
            lemma_csum_mono(deps, prices, ltvs, n - 1, m - 1);
        } else {
            lemma_csum_mono(deps, prices, ltvs, n, m - 1);
        }
    }
}

/// With non-negative ledgers the partial debt sums grow with `n`.
pub proof fn lemma_dsum_mono(debts: Seq<(u64, i128)>, prices: Seq<(u64, i128)>, n: int, m: int)
    requires
        nonneg_vals(debts),
        nonneg_vals(prices),
        0 <= n <= m <= debts.len(),
    ensures
        0 <= dsum(debts, prices, n) <= dsum(debts, prices, m),
    decreases m,
{
    if m > 0 {
        lemma_val_of_nonneg(prices, debts[m - 1].0);
        lemma_mul_nonnegative(debts[m - 1].1 as int, val_of(prices, debts[m - 1].0));
        if n == m {
            lemma_dsum_mono(debts, prices, n - 1, m - 1);
        } else {
            lemma_dsum_mono(debts, prices, n, m - 1);
        }
    }
}

/// Replacing the deposit entry at `i` by one with the same key moves each
/// partial collateral sum by the change of that one term.
pub proof fn lemma_csum_update(
    deps: Seq<(u64, i128)>,
    prices: Seq<(u64, i128)>,
    ltvs: Seq<(u64, i128)>,
    i: int,
    e: (u64, i128),
    n: int,
)
    requires
        0 <= i < deps.len(),
        e.0 == deps[i].0,
        0 <= n <= deps.len(),
    ensures
        csum(deps.update(i, e), prices, ltvs, n) == csum(deps, prices, ltvs, n) + if i < n {
            cterm(e.1 as int, val_of(prices, e.0), val_of(ltvs, e.0)) - cterm(
                deps[i].1 as int,
                val_of(prices, e.0),
                val_of(ltvs, e.0),
            )
        } else {
            0
        },
    decreases n,
{
    let t = deps.update(i, e);
    if n > 0 {
        lemma_csum_update(deps, prices, ltvs, i, e, n - 1);
        if i == n - 1 {
            assert(t[n - 1] == e);
        } else {
            assert(t[n - 1] == deps[n - 1]);
        }
    }
}

/// Replacing the debt entry at `i` by one with the same key moves each
/// partial debt sum by the change of that one term.
pub proof fn lemma_dsum_update(
    debts: Seq<(u64, i128)>,
    prices: Seq<(u64, i128)>,
    i: int,
    e: (u64, i128),
    n: int,
)
    requires
        0 <= i < debts.len(),
        e.0 == debts[i].0,
        0 <= n <= debts.len(),
    ensures
        dsum(debts.update(i, e), prices, n) == dsum(debts, prices, n) + if i < n {
            (e.1 - debts[i].1) * val_of(prices, e.0)
        } else {
            0
        },
    decreases n,
{
    let t = debts.update(i, e);
    if n > 0 {
        lemma_dsum_update(debts, prices, i, e, n - 1);
        if i == n - 1 {
            assert(t[n - 1] == e);
            lemma_mul_is_distributive_sub_other_way(
                val_of(prices, e.0),
                e.1 as int,
                debts[i].1 as int,
            );
        } else {
            assert(t[n - 1] == debts[n - 1]);
        }
    }
}

/// Two ledgers equal on the first `n` entries have the same partial sums.
pub proof fn lemma_dsum_prefix(
    s1: Seq<(u64, i128)>,
    s2: Seq<(u64, i128)>,
    prices: Seq<(u64, i128)>,
    n: int,
)
    requires
        0 <= n <= s1.len(),
        n <= s2.len(),
        forall|j: int| 0 <= j < n ==> s1[j] == s2[j],
    ensures
        dsum(s1, prices, n) == dsum(s2, prices, n),
    decreases n,
{
    if n > 0 {
        lemma_dsum_prefix(s1, s2, prices, n - 1);
    }
}

/// Appending a debt entry adds its term to the debt value.
pub proof fn lemma_dsum_push(debts: Seq<(u64, i128)>, prices: Seq<(u64, i128)>, e: (u64, i128))
    ensures
        debt_value(debts.push(e), prices) == debt_value(debts, prices) + e.1 * val_of(
            prices,
            e.0,
        ),
{
    let t = debts.push(e);
    assert(t[t.len() - 1] == e);
    lemma_dsum_prefix(t, debts, prices, debts.len() as int);
    assert(dsum(t, prices, t.len() as int) == dsum(t, prices, t.len() - 1) + e.1 * val_of(
        prices,
        e.0,
    ));
}

} // verus!
