//! Sanity checks about the configured limits.

use crate::config::{MAX_N_SECTORS, MAX_PARTITION_SIZE, SECTOR_SIZE};
use vstd::prelude::*;

verus! {

/// Address table size for a single partition: one entry per sector the
/// largest partition can hold.
pub fn max_address_table_size() -> (r: u64)
    ensures
        r == MAX_PARTITION_SIZE / SECTOR_SIZE,
        r == MAX_N_SECTORS,
{
    MAX_N_SECTORS
}

} // verus!
