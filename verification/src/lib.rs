//! In-memory index layer of a log-structured key-value store: an ordered
//! map backed by a skip list with hazard-pointer reclamation bookkeeping,
//! an append-only write-ahead log, a thin memtable facade coupling the
//! two, and a string-keyed red-black tree.

pub mod log;
pub mod memory_management;
pub mod memtable;
pub mod rbtree;
pub mod skiplist;
pub mod util;
