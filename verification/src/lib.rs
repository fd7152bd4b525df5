//! Operator-side core of a Plasma chain: range-indexed block production and
//! the primitives that prove inclusion or exclusion of a range in a block.

pub mod abi;
pub mod block;
pub mod block_db;
pub mod block_manager;
pub mod double_layer_tree;
pub mod error;
pub mod event_watcher;
pub mod hash;
pub mod merkle;
pub mod primitives;
pub mod quantifier;
pub mod range_store;
pub mod state_update;
pub mod transaction;
