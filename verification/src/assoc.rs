use vstd::prelude::*;

verus! {

/// The value stored under key `k` in an association sequence, if any.
/// When several entries carry the key, the last one wins; the ledgers keep
/// their keys unique, so the case does not arise there.
pub open spec fn assoc_find<V>(s: Seq<(u64, V)>, k: u64) -> Option<V>
    decreases s.len(),
{
    if s.len() == 0 {
        None
    } else if s.last().0 == k {
        Some(s.last().1)
    } else {
        assoc_find(s.drop_last(), k)
    }
}

/// No two entries carry the same key.
pub open spec fn unique_keys<V>(s: Seq<(u64, V)>) -> bool {
    forall|i: int, j: int|
        0 <= i < j < s.len() ==> (#[trigger] s[i]).0 != (#[trigger] s[j]).0
}

/// Every stored amount is non-negative.
pub open spec fn nonneg_vals(s: Seq<(u64, i128)>) -> bool {
    forall|i: int| 0 <= i < s.len() ==> (#[trigger] s[i]).1 >= 0
}

/// The amount stored under key `k`; absence means the canonical zero balance.
pub open spec fn val_of(s: Seq<(u64, i128)>, k: u64) -> int {
    match assoc_find(s, k) {
        Some(v) => v as int,
        None => 0,
    }
}

/// A lookup finds exactly the entry that carries the key.
pub proof fn lemma_find_present<V>(s: Seq<(u64, V)>, i: int)
    requires
        unique_keys(s),
        0 <= i < s.len(),
    ensures
        assoc_find(s, s[i].0) == Some(s[i].1),
    decreases s.len(),
{
    if i == s.len() - 1 {
    } else {
        assert(s.drop_last()[i] == s[i]);
        lemma_find_present(s.drop_last(), i);
    }
}

/// A lookup relates to the entries: a hit names an entry, a miss rules out
/// every entry.
pub proof fn lemma_find_entries<V>(s: Seq<(u64, V)>, k: u64)
    ensures
        match assoc_find(s, k) {
            Some(v) => exists|i: int| 0 <= i < s.len() && s[i] == (k, v),
            None => forall|i: int| 0 <= i < s.len() ==> (#[trigger] s[i]).0 != k,
        },
    decreases s.len(),
{
    if s.len() == 0 {
    } else if s.last().0 == k {
        assert(s[s.len() - 1] == (k, s.last().1));
    } else {
        lemma_find_entries(s.drop_last(), k);
        match assoc_find(s.drop_last(), k) {
            Some(v) => {
                let i = choose|i: int| 0 <= i < s.drop_last().len() && s.drop_last()[i] == (k, v);
                assert(s[i] == (k, v));
            },
            None => {
                assert forall|i: int| 0 <= i < s.len() implies (#[trigger] s[i]).0 != k by {
                    if i < s.len() - 1 {
                        assert(s.drop_last()[i] == s[i]);
                    }
                }
            },
        }
    }
}

/// Replacing the entry at `i` by one with the same key changes exactly the
/// lookup of that key.
pub proof fn lemma_find_update<V>(s: Seq<(u64, V)>, i: int, e: (u64, V), k: u64)
    requires
        unique_keys(s),
        0 <= i < s.len(),
        e.0 == s[i].0,
    ensures
        assoc_find(s.update(i, e), k) == if k == e.0 {
            Some(e.1)
        } else {
            assoc_find(s, k)
        },
    decreases s.len(),
{
    let t = s.update(i, e);
    if i == s.len() - 1 {
        assert(t.last() == e);
        assert(t.drop_last() =~= s.drop_last());
        if k != e.0 {
            assert(assoc_find(s, k) == assoc_find(s.drop_last(), k));
        }
    } else {
        assert(t.last() == s.last());
        assert(t.drop_last() =~= s.drop_last().update(i, e));
        assert(s.drop_last()[i] == s[i]);
        lemma_find_update(s.drop_last(), i, e, k);
        if s.last().0 == k {
            // The key sits in the last entry; by uniqueness it is not e.0.
            assert(s[s.len() - 1].0 == k);
        }
    }
}

/// Appending an entry changes exactly the lookup of its key.
pub proof fn lemma_find_push<V>(s: Seq<(u64, V)>, e: (u64, V), k: u64)
    ensures
        assoc_find(s.push(e), k) == if k == e.0 {
            Some(e.1)
        } else {
            assoc_find(s, k)
        },
{
    assert(s.push(e).last() == e);
    assert(s.push(e).drop_last() =~= s);
}

/// Updating an entry in place keeps the keys unique.
pub proof fn lemma_unique_update<V>(s: Seq<(u64, V)>, i: int, e: (u64, V))
    requires
        unique_keys(s),
        0 <= i < s.len(),
        e.0 == s[i].0,
    ensures
        unique_keys(s.update(i, e)),
{
}

/// Appending an absent key keeps the keys unique.
pub proof fn lemma_unique_push<V>(s: Seq<(u64, V)>, e: (u64, V))
    requires
        unique_keys(s),
        assoc_find(s, e.0) is None,
    ensures
        unique_keys(s.push(e)),
{
    lemma_find_entries(s, e.0);
}

/// A balance read from a non-negative ledger is non-negative.
pub proof fn lemma_val_of_nonneg(s: Seq<(u64, i128)>, k: u64)
    requires
        nonneg_vals(s),
    ensures
        val_of(s, k) >= 0,
{
    lemma_find_entries(s, k);
}

} // verus!
