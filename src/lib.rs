//! The core of a replicated, transactional data host: transaction identifiers and locks,
//! tables with auxiliary indexes and their query planner, sparse tensors, the hashed chain of
//! mutation blocks, and the bookkeeping of replicated writes.

pub mod cache;
pub mod chain;
pub mod class;
pub mod decimal;
pub mod dir;
pub mod error;
pub mod graph;
pub mod replication;
pub mod request;
pub mod sort;
pub mod table;
pub mod tensor;
pub mod txn;
