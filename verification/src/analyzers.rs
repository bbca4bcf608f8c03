//! Analysis passes over parsed reports — one pass per analyzer, never
//! combined.

pub mod flaky;
pub mod history;
pub mod time_order;
pub mod evidence;
pub mod explain;
