//! Building blocks of a blockchain node's transaction path: small helpers for
//! reporting node state, mempool filtering and scheduling, header tracking and
//! a bounded multi-account transaction pool.

pub mod text;
pub mod variables;
pub mod ownership;
pub mod state_helper;
pub mod node_dashboard;
pub mod mempool_pipeline;
pub mod fee_scheduler;
pub mod slot_planner;
pub mod account_locking;
pub mod header_buffer;
pub mod fork_choice;
pub mod tx_pool;
