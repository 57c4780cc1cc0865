//! Which storage backend an engine runs on.

use vstd::prelude::*;

verus! {

/// Configuration for the tiered storage variant.  Where the host keeps the
/// segment files and the manifest is its own concern.
pub struct TieredConfig {
    /// Maximum bytes per segment before rotation.
    pub segment_size_bytes: u64,
    /// Artificial latency the host should inject on cold-tier reads, in
    /// milliseconds.
    pub cold_latency_ms: u64,
}

/// Which storage backend to use.
pub enum StoragePreset {
    /// A single WAL file.
    Base,
    /// Segmented WAL with hot/cold tiering.
    Tiered(TieredConfig),
}

} // verus!
