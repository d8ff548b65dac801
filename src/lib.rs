//! The store-synchronization layer of a ledger-backed read model: a commit store that
//! tracks each service's applied commits, a role read model partitioned by service scope, a
//! coordinator that applies a commit's changes as one unit and undoes them on rollback, and a
//! batch store that follows submitted batches through their statuses.

pub mod batch_store;
pub mod commit_store;
pub mod coordinator;
pub mod error;
pub mod laws;
pub mod order;
pub mod paging;
pub mod protocol;
pub mod role_store;
pub mod routes;
pub mod scope;
