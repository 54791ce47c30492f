use ironbase_core::limits::{
    DEFAULT_CURSOR_BATCH_SIZE, DEFAULT_WRITE_LOCK_TIMEOUT_SECS, INDEX_BUILD_BATCH_SIZE, LOCK_POLL_INTERVAL_MS,
    MAX_BATCH_MEMORY_BYTES, MAX_DOCUMENT_SIZE_BYTES, MAX_KEYS_PER_NODE, MAX_METADATA_SIZE, MAX_RECURSION_DEPTH,
    MAX_WAL_ENTRY_SIZE, NODE_PAGE_SIZE, QUERY_CACHE_CAPACITY, REGEX_CACHE_CAPACITY,
};

#[test]
fn test_storage_limits_are_64mb() {
    assert_eq!(MAX_DOCUMENT_SIZE_BYTES, 64 * 1024 * 1024);
    assert_eq!(MAX_METADATA_SIZE, 64 * 1024 * 1024);
    assert_eq!(MAX_WAL_ENTRY_SIZE, 64 * 1024 * 1024);
}

#[test]
fn test_index_limits() {
    assert_eq!(MAX_KEYS_PER_NODE, 128);
    assert_eq!(NODE_PAGE_SIZE, 16384);
    assert_eq!(INDEX_BUILD_BATCH_SIZE, 1000);
}

#[test]
fn test_cache_limits() {
    assert_eq!(QUERY_CACHE_CAPACITY, 1000);
    assert_eq!(REGEX_CACHE_CAPACITY, 100);
}

#[test]
fn test_batch_limits() {
    assert_eq!(DEFAULT_CURSOR_BATCH_SIZE, 100);
    assert_eq!(MAX_BATCH_MEMORY_BYTES, 10 * 1024 * 1024);
}

#[test]
fn test_recursion_limit() {
    assert_eq!(MAX_RECURSION_DEPTH, 100);
}

#[test]
fn test_transaction_limits() {
    assert_eq!(DEFAULT_WRITE_LOCK_TIMEOUT_SECS, 5);
    assert_eq!(LOCK_POLL_INTERVAL_MS, 10);
}
