//! Timestamps, frontiers, count maps and the scheduling contract.

pub mod count_map;
pub mod frontier;
pub mod nested;
pub mod notificator;
pub mod operate;
pub mod reachability;
pub mod root;
pub mod timestamp;
pub mod walks;

pub use count_map::CountMap;
pub use frontier::{Antichain, MutableAntichain};
pub use notificator::Notificator;
pub use operate::Operate;
pub use timestamp::{PartialOrder, PathSummary, Product, Timestamp};
