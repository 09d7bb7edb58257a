//! The access-and-sharing authorization engine: who may write, remove,
//! approve, reject or revoke access to a content item, and which content
//! items are approved as shares of which.

pub mod contract;
pub mod deny_list;
pub mod error;
pub mod history;
pub mod invariants;
pub mod laws;
pub mod model;
pub mod permission;
pub mod permission_ledger;
pub mod request;
pub mod request_queue;
pub mod share_ledger;
