//! What every index offers, and the size above which an index file is
//! loaded lazily.
use vstd::prelude::*;
use crate::error::IronBaseError;

verus! {

const MIB: u64 = 1024 * 1024;

/// Lazy-loading threshold in bytes for a machine with `available_bytes` of
/// free memory: 2.5% of it, kept between 50 MiB and 500 MiB; 100 MiB when the
/// amount is unknown.
pub open spec fn lazy_threshold(available_bytes: Option<u64>) -> int {
    match available_bytes {
        Some(bytes) => {
            let mb: int = bytes as int / 1048576int / 40int;
            (if mb < 50 {
                50int
            } else if mb > 500 {
                500int
            } else {
                mb
            }) * (1024 * 1024)
        },
        None => 100int * 1024 * 1024,
    }
}

/// Lazy-loading threshold for the given free memory (see [`lazy_threshold`]).
pub fn lazy_threshold_from(available_bytes: Option<u64>) -> (t: u64)
    ensures
        t == lazy_threshold(available_bytes),
        50 * 1024 * 1024 <= t <= 500 * 1024 * 1024,
{
    match available_bytes {
        Some(bytes) => {
            let available_mb = bytes / MIB;
            let share = available_mb / 40;
            let threshold_mb = if share < 50 {
                50
            } else if share > 500 {
                500
            } else {
                share
            };
            threshold_mb * MIB
        },
        None => 100 * MIB,
    }
}

/// Operations every index offers.
pub trait IndexTrait {
    /// Index name.
    fn name(&self) -> &str;

    /// Indexed fields.
    fn fields(&self) -> Vec<&str>;

    /// Number of entries.
    fn entry_count(&self) -> usize;

    /// Approximate memory use in bytes.
    fn memory_usage_bytes(&self) -> usize;

    /// Whether the index has disk-based storage.
    fn is_disk_backed(&self) -> bool;

    /// Write pending changes to disk (nothing for in-memory indexes).
    fn flush(&mut self) -> Result<(), IronBaseError>;
}

} // verus!
