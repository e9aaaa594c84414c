//! System-wide sizing limits.

use vstd::prelude::*;

verus! {

/// Payload capacity of a large sector, in bytes.
pub const SECTOR_DATA_SIZE: u64 = 1_000_000;

/// Size of large disk sectors in bytes.
pub const SECTOR_SIZE: u64 = 262144;

/// Largest supported partition, in bytes.
pub const MAX_PARTITION_SIZE: u64 = 1_000_000_000_000;

/// Largest supported sector count of one partition.
pub const MAX_N_SECTORS: u64 = MAX_PARTITION_SIZE / SECTOR_SIZE;

} // verus!
