//! Transactional storage core of a small relational database engine:
//! typed pages, write-ahead log records, a buffer pool, block locks and
//! undo-only recovery.
use vstd::prelude::*;

pub mod block_id;
pub mod block_map;
pub mod buffer;
pub mod buffer_list;
pub mod concurrency;
pub mod file_layout;
pub mod lock_table;
pub mod log_iterator;
pub mod log_page;
pub mod log_record;
pub mod page;
pub mod recovery;

verus! {

/// A log sequence number.
pub type Lsn = i64;

} // verus!
