//! Bond monitoring core: the latest known bond record per monitored address,
//! the decisions of the poller that keeps those records fresh, and the gauge
//! samples that an exporter publishes from them.

pub mod address;
pub mod amount;
pub mod export;
pub mod fetch;
pub mod poller;
pub mod record;
pub mod store;
