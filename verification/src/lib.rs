//! Inventory tracking for a tiered organization.
//!
//! Leaf nodes keep per-category counters in a key-value store; aggregator
//! nodes collect snapshots published by their children over a message bus
//! and answer queries with the composite view. This crate holds the logic
//! of that protocol: category normalization, the snapshot wire codec, the
//! store model, the ledger, and the rundown responder and aggregator.

pub mod aggregator;
pub mod codec;
pub mod items;
pub mod ledger;
pub mod node;
pub mod store;
pub mod text;
