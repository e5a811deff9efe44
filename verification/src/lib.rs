//! A collateralized lending accounting engine.
//!
//! The crate tracks, per asset, a pool of supplied and borrowed funds, and per
//! user, deposits and debts across all assets. The four state-changing
//! operations (`supply`, `withdraw`, `repay`, `borrow`) are verified to keep
//! every pool liquid (`total_borrowed <= total_supplied`), to keep the pool
//! totals equal to the sums of the user ledgers, to leave the state untouched
//! whenever an operation fails, and to leave every touched position solvent.
//!
//! Moving the underlying funds, proving a caller's identity and persisting the
//! ledgers are a host's duties: an operation that needs funds moved returns a
//! [`TransferRequest`] describing the movement, and the host commits the new
//! state only when that movement went through.

mod assoc;
mod engine;
mod errors;
mod health;
mod keys;
mod laws;
mod model;

pub use assoc::{assoc_find, nonneg_vals, unique_keys, val_of};
pub use engine::{LendingPool, TransferDirection, TransferRequest};
pub use errors::LendingError;
pub use health::{collateral_value, debt_value, health_fits};
pub use keys::DataKey;
pub use laws::{lemma_conservation, lemma_pool_liquidity};
pub use model::{sum_deposits, sum_debts, AssetMap, Pool, UserPosition};
