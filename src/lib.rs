//! A workspace-partitioned mailbox: typed messages that an operator can list,
//! handle once, and delete one by one or in bulk.

pub mod clock;
pub mod message;
pub mod query;
pub mod store;
pub mod laws;
