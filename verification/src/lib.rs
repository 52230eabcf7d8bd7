//! An in-memory, multi-version key-value store that speaks the data model of
//! etcd: a global revision that every write advances, reads at any revision
//! that has not been compacted, conditional writes of single keys, and
//! watchers that are told of every change in the order of the revisions.

pub mod batch;
pub mod block_deque;
pub mod buffer;
pub mod chain;
pub mod kv_service;
pub mod laws;
pub mod lease_service;
pub mod lex;
pub mod maintenance_service;
pub mod model;
pub mod notify;
pub mod ordered;
pub mod prefix;
pub mod replay;
pub mod shared_map;
pub mod soundness;
pub mod store;
pub mod types;
pub mod wal;
pub mod wal_manager;
pub mod watch_service;
pub mod watchers;
