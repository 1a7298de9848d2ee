//! Figures about a table.

use vstd::prelude::*;

verus! {

/// Figures about a table at one moment. A figure that does not apply is none.
#[derive(Clone, Copy, PartialEq, Eq, Structural, Debug)]
pub struct SupertableStats {
    pub manifest_id: u64,
    pub n_superfiles: usize,
    /// Parts of the list; none for a table without storage.
    pub n_manifest_parts: Option<usize>,
    /// Parts that are loaded.
    pub n_manifest_parts_loaded: usize,
    /// Physical memory of the process; zero where it is not known.
    pub process_rss_bytes: u64,
    /// Bytes of mapped superfiles that are in memory; none without a disk
    /// cache.
    pub mmap_resident_bytes: Option<u64>,
    pub memory_budget_bytes: Option<u64>,
    pub n_cold_fetches: Option<u64>,
    pub n_cache_evictions: Option<u64>,
    pub n_cache_madvise_calls: Option<u64>,
    pub n_cache_entries: Option<u64>,
}

impl Default for SupertableStats {
    fn default() -> (r: Self)
        ensures
            r == (SupertableStats {
                manifest_id: 0,
                n_superfiles: 0,
                n_manifest_parts: None,
                n_manifest_parts_loaded: 0,
                process_rss_bytes: 0,
                mmap_resident_bytes: None,
                memory_budget_bytes: None,
                n_cold_fetches: None,
                n_cache_evictions: None,
                n_cache_madvise_calls: None,
                n_cache_entries: None,
            }),
    {
        SupertableStats {
            manifest_id: 0,
            n_superfiles: 0,
            n_manifest_parts: None,
            n_manifest_parts_loaded: 0,
            process_rss_bytes: 0,
            mmap_resident_bytes: None,
            memory_budget_bytes: None,
            n_cold_fetches: None,
            n_cache_evictions: None,
            n_cache_madvise_calls: None,
            n_cache_entries: None,
        }
    }
}

/// `memory_stats::memory_stats`: the physical memory of the process at this
/// moment, where the platform tells it. It differs from call to call, so
/// nothing is said of it.
#[verifier::external_body]
fn physical_memory() -> (r: Option<usize>) {
    memory_stats::memory_stats().map(|m| m.physical_mem)
}

/// The figure for a measurement: zero where there is none.
pub fn rss_figure(measured: Option<usize>) -> (r: u64)
    ensures
        match measured {
            Some(n) => r == n,
            None => r == 0,
        },
{
    match measured {
        Some(n) => n as u64,
        None => 0,
    }
}

/// The physical memory of the process, as far as it is known.
pub fn process_rss_bytes() -> (r: u64)
    ensures
        r <= usize::MAX,
{
    rss_figure(physical_memory())
}

} // verus!
