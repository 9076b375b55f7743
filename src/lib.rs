//! Balance and price tracking across venues: request signing and error
//! classification for the asset-management API, currency reconciliation,
//! an in-memory repository that keeps the relational schema's rules, and the
//! tick policy of the periodic workers.

pub mod classify;
pub mod client;
pub mod model;
pub mod rows;
pub mod schedule;
pub mod signing;
pub mod store;
pub mod text;
