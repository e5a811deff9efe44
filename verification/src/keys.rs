use vstd::prelude::*;

verus! {

/// The namespace of records a host persists the engine's state under: the
/// administrator identity, one pool and one position record per asset and per
/// user, and the per-asset loan-to-value ratio and price set by the
/// administrative surface. Assets and users are named by plain identifiers.
#[derive(Clone, Copy, Debug, PartialEq, Eq, Structural)]
pub enum DataKey {
    Owner,
    Pool(u64),
    UserPos(u64),
    Ltv(u64),
    Price(u64),
}

} // verus!
