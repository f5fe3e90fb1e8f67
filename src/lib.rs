//! In-process market-data distribution hub: ticks, per-symbol aggregation,
//! subscription bookkeeping and the hub's event-handling rules.

pub mod aggregator;
pub mod hub;
pub mod price;
pub mod symbol_table;
pub mod tick;
