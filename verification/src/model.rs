use vstd::prelude::*;

use crate::assoc::{
    assoc_find, lemma_find_entries, lemma_find_present, lemma_find_push, lemma_find_update,
    lemma_unique_push, lemma_unique_update, lemma_val_of_nonneg, nonneg_vals, unique_keys, val_of,
};

verus! {

/// Aggregate per-asset ledger: the sums of all outstanding deposit and debt
/// claims against one asset. `total_reserves` is reserved for future use and
/// stays zero.
#[derive(Clone, Copy, Debug, PartialEq, Eq, Structural)]
pub struct Pool {
    pub asset: u64,
    pub total_supplied: i128,
    pub total_borrowed: i128,
    pub total_reserves: i128,
}

impl Pool {
    /// A pool never owes more than it holds, and carries no reserves.
    pub open spec fn wf(self) -> bool {
        &&& 0 <= self.total_borrowed
        &&& self.total_borrowed <= self.total_supplied
        &&& self.total_reserves == 0
    }
}

/// A ledger from asset identifier to a non-negative amount. An absent key
/// means a zero balance, not an error.
#[derive(Clone, Debug)]
pub struct AssetMap {
    pub entries: Vec<(u64, i128)>,
}

impl AssetMap {
    /// Keys are unique and every amount is non-negative.
    pub open spec fn wf(self) -> bool {
        unique_keys(self.entries@) && nonneg_vals(self.entries@)
    }

    /// The balance stored under `k`; zero when the key is absent.
    pub open spec fn spec_get(self, k: u64) -> int {
        val_of(self.entries@, k)
    }

    /// The empty ledger.
    pub fn new() -> (r: AssetMap)
        ensures
            r.entries@ == Seq::<(u64, i128)>::empty(),
            r.wf(),
            forall|k: u64| r.spec_get(k) == 0,
    {
        let r = AssetMap { entries: Vec::new() };
        proof {
            assert forall|k: u64| r.spec_get(k) == 0 by {
                assert(assoc_find(r.entries@, k) is None);
            }
        }
        r
    }

    /// Reads the balance under `k`, with zero for an absent key.
    pub fn get(&self, k: u64) -> (r: i128)
        requires
            self.wf(),
        ensures
            r as int == self.spec_get(k),
            r >= 0,
    {
        let n = self.entries.len();
        let mut i: usize = 0;
        while i < n
            invariant
                n == self.entries@.len(),
                0 <= i <= n,
                self.wf(),
                forall|j: int| 0 <= j < i ==> (#[trigger] self.entries@[j]).0 != k,
            decreases n - i,
        {
            if self.entries[i].0 == k {
                proof {
                    lemma_find_present(self.entries@, i as int);
                }
                return self.entries[i].1;
            }
            i += 1;
        }
        proof {
            lemma_find_entries(self.entries@, k);
        }
        0
    }

    /// Writes `v` as the balance under `k`, keeping every other balance.
    /// The entry is updated in place when present, appended otherwise.
    pub fn set(&mut self, k: u64, v: i128)
        requires
            old(self).wf(),
            v >= 0,
        ensures
            final(self).wf(),
            final(self).spec_get(k) == v,
            forall|k2: u64| k2 != k ==> final(self).spec_get(k2) == old(self).spec_get(k2),
            if has_index(old(self).entries@, k) {
                final(self).entries@ == old(self).entries@.update(
                    key_index(old(self).entries@, k),
                    (k, v),
                )
            } else {
                final(self).entries@ == old(self).entries@.push((k, v))
            },
    {
        let n = self.entries.len();
        let mut i: usize = 0;
        while i < n
            invariant
                n == self.entries@.len(),
                0 <= i <= n,
                self == old(self),
                old(self).wf(),
                v >= 0,
                forall|j: int| 0 <= j < i ==> (#[trigger] self.entries@[j]).0 != k,
            decreases n - i,
        {
            if self.entries[i].0 == k {
                proof {
                    lemma_key_index_is(old(self).entries@, k, i as int);
                    lemma_unique_update(old(self).entries@, i as int, (k, v));
                    let t = old(self).entries@.update(i as int, (k, v));
                    assert forall|j: int| 0 <= j < t.len() implies (#[trigger] t[j]).1 >= 0 by {
                        if j == i {
                            assert(t[j] == (k, v));
                            assert(v >= 0);
                        } else {
                            assert(t[j] == old(self).entries@[j]);
                            assert(old(self).entries@[j].1 >= 0);
                        }
                    }
                    lemma_find_update(old(self).entries@, i as int, (k, v), k);
                    assert forall|k2: u64| k2 != k implies val_of(
                        old(self).entries@.update(i as int, (k, v)),
                        k2,
                    ) == val_of(old(self).entries@, k2) by {
                        lemma_find_update(old(self).entries@, i as int, (k, v), k2);
                    }
                }
                self.entries[i] = (k, v);
                return ;
            }
            i += 1;
        }
        proof {
            lemma_find_entries(old(self).entries@, k);
            lemma_unique_push(old(self).entries@, (k, v));
            lemma_find_push(old(self).entries@, (k, v), k);
            assert forall|k2: u64| k2 != k implies val_of(
                old(self).entries@.push((k, v)),
                k2,
            ) == val_of(old(self).entries@, k2) by {
                lemma_find_push(old(self).entries@, (k, v), k2);
            }
        }
        self.entries.push((k, v));
    }

    /// A fresh ledger holding exactly the same entries.
    pub fn duplicate(&self) -> (r: AssetMap)
        ensures
            r.entries@ == self.entries@,
    {
        let n = self.entries.len();
        let mut out: Vec<(u64, i128)> = Vec::new();
        let mut i: usize = 0;
        while i < n
            invariant
                n == self.entries@.len(),
                0 <= i <= n,
                out@ == self.entries@.subrange(0, i as int),
            decreases n - i,
        {
            out.push(self.entries[i]);
            proof {
                assert(out@ =~= self.entries@.subrange(0, i + 1 as int));
            }
            i += 1;
        }
        proof {
            assert(out@ =~= self.entries@);
        }
        AssetMap { entries: out }
    }
}

/// Whether some entry of `s` carries key `k`.
pub open spec fn has_index(s: Seq<(u64, i128)>, k: u64) -> bool {
    exists|i: int| 0 <= i < s.len() && (#[trigger] s[i]).0 == k
}

/// The index of the entry carrying key `k` (meaningful under `has_index`).
pub open spec fn key_index(s: Seq<(u64, i128)>, k: u64) -> int {
    choose|i: int| 0 <= i < s.len() && (#[trigger] s[i]).0 == k
}

/// Finding the key at `i` pins `key_index` to `i` when keys are unique.
pub proof fn lemma_key_index_is(s: Seq<(u64, i128)>, k: u64, i: int)
    requires
        unique_keys(s),
        0 <= i < s.len(),
        s[i].0 == k,
    ensures
        has_index(s, k),
        key_index(s, k) == i,
{
    assert(has_index(s, k));
}

/// Per-user ledger of deposits and debts across all assets.
#[derive(Clone, Debug)]
pub struct UserPosition {
    pub deposits: AssetMap,
    pub debts: AssetMap,
}

impl UserPosition {
    pub open spec fn wf(self) -> bool {
        self.deposits.wf() && self.debts.wf()
    }

    /// The canonical representation of a never-before-seen user: no deposits,
    /// no debts.
    pub fn new() -> (r: UserPosition)
        ensures
            r.deposits.entries@ == Seq::<(u64, i128)>::empty(),
            r.debts.entries@ == Seq::<(u64, i128)>::empty(),
            r.wf(),
            forall|k: u64| r.deposits.spec_get(k) == 0 && r.debts.spec_get(k) == 0,
    {
        let r = UserPosition { deposits: AssetMap::new(), debts: AssetMap::new() };
        proof {
            assert forall|k: u64| r.deposits.spec_get(k) == 0 && r.debts.spec_get(k) == 0 by {
                assert(assoc_find(r.deposits.entries@, k) is None);
                assert(assoc_find(r.debts.entries@, k) is None);
            }
        }
        r
    }

    /// A fresh position holding exactly the same ledgers.
    pub fn duplicate(&self) -> (r: UserPosition)
        ensures
            r.deposits.entries@ == self.deposits.entries@,
            r.debts.entries@ == self.debts.entries@,
    {
        UserPosition { deposits: self.deposits.duplicate(), debts: self.debts.duplicate() }
    }
}

/// The sum of every user's deposit balance for `asset`.
pub open spec fn sum_deposits(s: Seq<(u64, UserPosition)>, asset: u64) -> int
    decreases s.len(),
{
    if s.len() == 0 {
        0
    } else {
        sum_deposits(s.drop_last(), asset) + val_of(s.last().1.deposits.entries@, asset)
    }
}

/// The sum of every user's debt balance for `asset`.
pub open spec fn sum_debts(s: Seq<(u64, UserPosition)>, asset: u64) -> int
    decreases s.len(),
{
    if s.len() == 0 {
        0
    } else {
        sum_debts(s.drop_last(), asset) + val_of(s.last().1.debts.entries@, asset)
    }
}

/// Replacing the position at `i` moves each per-asset sum by the change of
/// that one user's balance.
pub proof fn lemma_sum_update(s: Seq<(u64, UserPosition)>, i: int, e: (u64, UserPosition), asset: u64)
    requires
        0 <= i < s.len(),
    ensures
        sum_deposits(s.update(i, e), asset) == sum_deposits(s, asset)
            - val_of(s[i].1.deposits.entries@, asset) + val_of(e.1.deposits.entries@, asset),
        sum_debts(s.update(i, e), asset) == sum_debts(s, asset)
            - val_of(s[i].1.debts.entries@, asset) + val_of(e.1.debts.entries@, asset),
    decreases s.len(),
{
    let t = s.update(i, e);
    if i == s.len() - 1 {
        assert(t.last() == e);
        assert(t.drop_last() =~= s.drop_last());
    } else {
        assert(t.last() == s.last());
        assert(t.drop_last() =~= s.drop_last().update(i, e));
        assert(s.drop_last()[i] == s[i]);
        lemma_sum_update(s.drop_last(), i, e, asset);
    }
}

/// Appending a position adds that one user's balances to each per-asset sum.
pub proof fn lemma_sum_push(s: Seq<(u64, UserPosition)>, e: (u64, UserPosition), asset: u64)
    ensures
        sum_deposits(s.push(e), asset) == sum_deposits(s, asset)
            + val_of(e.1.deposits.entries@, asset),
        sum_debts(s.push(e), asset) == sum_debts(s, asset) + val_of(e.1.debts.entries@, asset),
{
    assert(s.push(e).last() == e);
    assert(s.push(e).drop_last() =~= s);
}

/// With every balance non-negative, each per-asset sum is non-negative.
pub proof fn lemma_sum_nonneg(s: Seq<(u64, UserPosition)>, asset: u64)
    requires
        forall|i: int| 0 <= i < s.len() ==> (#[trigger] s[i]).1.wf(),
    ensures
        sum_deposits(s, asset) >= 0,
        sum_debts(s, asset) >= 0,
    decreases s.len(),
{
    if s.len() > 0 {
        assert(s.drop_last() =~= s.subrange(0, s.len() - 1));
        assert forall|i: int| 0 <= i < s.drop_last().len() implies (#[trigger] s.drop_last()[i]).1.wf() by {
            assert(s.drop_last()[i] == s[i]);
        }
        lemma_sum_nonneg(s.drop_last(), asset);
        assert(s[s.len() - 1].1.wf());
        lemma_val_of_nonneg(s.last().1.deposits.entries@, asset);
        lemma_val_of_nonneg(s.last().1.debts.entries@, asset);
    }
}

/// One user's balance never exceeds the per-asset sum over all users.
pub proof fn lemma_entry_le_sum(s: Seq<(u64, UserPosition)>, i: int, asset: u64)
    requires
        forall|j: int| 0 <= j < s.len() ==> (#[trigger] s[j]).1.wf(),
        0 <= i < s.len(),
    ensures
        val_of(s[i].1.deposits.entries@, asset) <= sum_deposits(s, asset),
        val_of(s[i].1.debts.entries@, asset) <= sum_debts(s, asset),
    decreases s.len(),
{
    assert forall|j: int| 0 <= j < s.drop_last().len() implies (#[trigger] s.drop_last()[j]).1.wf() by {
        assert(s.drop_last()[j] == s[j]);
    }
    if i == s.len() - 1 {
        lemma_sum_nonneg(s.drop_last(), asset);
        assert(s.last() == s[i]);
    } else {
        assert(s.drop_last()[i] == s[i]);
        lemma_entry_le_sum(s.drop_last(), i, asset);
        assert(s[s.len() - 1].1.wf());
        lemma_val_of_nonneg(s.last().1.deposits.entries@, asset);
        lemma_val_of_nonneg(s.last().1.debts.entries@, asset);
    }
}

} // verus!
