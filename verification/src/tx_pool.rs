//! A bounded, multi-account pool of pending transactions.
//!
//! The pool keeps two orderings over the same transactions: each sender's
//! ledger is ordered by nonce, and a global selector ranks the ledger heads by
//! priority. Stale selector entries are tolerated and filtered when read.

pub mod types;
pub mod selector;
pub mod model;
pub mod invariants;
pub mod pool;
pub mod laws;

pub use types::{PendingTransaction, PopResult, QueuedTx, TxInsertError, TxPoolConfig};
pub use selector::PrioritySelector;
pub use pool::TxPool;
pub use model::PoolModel;
