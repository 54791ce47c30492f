//! Limits and tuning constants of the storage and index layers.
use vstd::prelude::*;

verus! {

/// Largest accepted document, in bytes (64 MiB); larger inserts are refused.
pub const MAX_DOCUMENT_SIZE_BYTES: usize = 64 * 1024 * 1024;

/// Largest collection metadata (index definitions and the like), in bytes.
pub const MAX_METADATA_SIZE: usize = 64 * 1024 * 1024;

/// Size of a write-ahead-log entry header: transaction id (8), type (1), length (4).
pub const WAL_HEADER_SIZE: usize = 13;

/// Largest write-ahead-log entry, in bytes (64 MiB).
pub const MAX_WAL_ENTRY_SIZE: usize = 64 * 1024 * 1024;

/// A B+ tree node with more keys than this splits.
pub const MAX_KEYS_PER_NODE: usize = 128;

/// Size of a persisted B+ tree node page, in bytes.
pub const NODE_PAGE_SIZE: usize = 16384;

/// Documents processed at once while building an index.
pub const INDEX_BUILD_BATCH_SIZE: usize = 1000;

/// Documents processed at once while building a full-text index.
pub const FULLTEXT_INDEX_BUILD_BATCH_SIZE: usize = 100;

/// Batch size of index rebuilds.
pub const INDEX_REBUILD_BATCH_SIZE: usize = 100;

/// Fewest entries for which a histogram is built.
pub const MIN_ENTRIES_FOR_HISTOGRAM: usize = 100_000;

/// Query results kept by the query cache.
pub const QUERY_CACHE_CAPACITY: usize = 1000;

/// Compiled regex patterns kept by the regex cache.
pub const REGEX_CACHE_CAPACITY: usize = 100;

/// Below `skip + limit` of this, pagination uses a bounded heap instead of a full sort.
pub const HEAP_PAGINATION_THRESHOLD: usize = 10_000;

/// Queries loading more documents than this are logged as large.
pub const LARGE_QUERY_WARNING_THRESHOLD: usize = 10_000;

/// Documents a cursor loads at once.
pub const DEFAULT_CURSOR_BATCH_SIZE: usize = 100;

/// Batched writes flush early once their buffer exceeds this many bytes.
pub const MAX_BATCH_MEMORY_BYTES: usize = 10 * 1024 * 1024;

/// Documents one worker takes at once in parallel scans.
pub const PARALLEL_CHUNK_SIZE: usize = 1000;

/// Deepest nesting that recursive field matching follows.
pub const MAX_RECURSION_DEPTH: usize = 100;

/// Seconds a transaction waits for the exclusive write lock.
pub const DEFAULT_WRITE_LOCK_TIMEOUT_SECS: u64 = 5;

/// Milliseconds between polls of a held lock.
pub const LOCK_POLL_INTERVAL_MS: u64 = 10;

/// Most operations replayed per collection during recovery.
pub const MAX_REPLAY_OPS_PER_COLLECTION: usize = 100_000;

/// Rows between checks for query cancellation.
pub const CANCELLATION_CHECK_INTERVAL: usize = 100;

} // verus!
