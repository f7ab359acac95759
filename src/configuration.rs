use vstd::prelude::*;

verus! {

/// Bytes of one serialized key.
pub const KEY_SIZE: usize = 4;

/// Bytes of one serialized record: key followed by value.
pub const RECORD_SIZE: usize = 8;

/// Largest value any size or capacity setting may take; keeps every
/// product of two settings well inside `usize`.
pub const MAX_SETTING: usize = 1048576;

/// Engine settings, threaded explicitly to every component.
///
/// The fullness threshold of a run is a percentage: a run is full once
/// `size * 100 >= capacity * full_threshold_pct`.
#[derive(Clone, Copy, Debug, PartialEq, Eq)]
pub struct Configuration {
    pub block_size: usize,
    pub file_size: usize,
    pub buffer_capacity: usize,
    pub size_ratio: usize,
    pub runs_per_level: usize,
    pub bf_bits_per_entry: usize,
    pub full_threshold_pct: usize,
}

impl Configuration {
    pub open spec fn wf(&self) -> bool {
        &&& RECORD_SIZE <= self.block_size <= MAX_SETTING
        &&& self.block_size % RECORD_SIZE == 0
        &&& RECORD_SIZE <= self.file_size <= MAX_SETTING
        &&& self.file_size % RECORD_SIZE == 0
        &&& RECORD_SIZE <= self.buffer_capacity <= MAX_SETTING
        &&& self.buffer_capacity % RECORD_SIZE == 0
        &&& 1 <= self.size_ratio <= 64
        &&& 1 <= self.runs_per_level <= 64
        &&& 1 <= self.bf_bits_per_entry <= 64
        &&& 1 <= self.full_threshold_pct <= 100
    }

    /// The default settings: 4 KiB blocks, 24 KiB files and buffer, size
    /// ratio 4, one run per level, ten filter bits per key, and the full
    /// compaction strategy (a run is full only when it reaches capacity).
    pub fn new() -> (r: Configuration)
        ensures
            r.wf(),
            r.block_size == 4096,
            r.file_size == 24576,
            r.buffer_capacity == 24576,
            r.size_ratio == 4,
            r.runs_per_level == 1,
            r.bf_bits_per_entry == 10,
            r.full_threshold_pct == 100,
    {
        Configuration {
            block_size: 4096,
            file_size: 24576,
            buffer_capacity: 24576,
            size_ratio: 4,
            runs_per_level: 1,
            bf_bits_per_entry: 10,
            full_threshold_pct: 100,
        }
    }

    /// Capacity of one run in the level below a parent of capacity
    /// `parent_capacity`: `parent_capacity * T / K`, rounded down to a
    /// whole number of records.
    pub open spec fn spec_child_run_capacity(&self, parent_capacity: int) -> int {
        (parent_capacity * self.size_ratio as int / self.runs_per_level as int) / RECORD_SIZE as int
            * RECORD_SIZE as int
    }

    /// The child run capacity, or the largest whole number of records
    /// that fits in `usize` when that is smaller.
    pub fn child_run_capacity(&self, parent_capacity: usize) -> (r: usize)
        requires
            self.wf(),
        ensures
            self.spec_child_run_capacity(parent_capacity as int) <= usize::MAX ==> r
                == self.spec_child_run_capacity(parent_capacity as int),
            r % 8 == 0,
    {
        let t = self.size_ratio as u128;
        let k = self.runs_per_level as u128;
        let p = parent_capacity as u128;
        assert(p * t <= 0xffff_ffff_ffff_ffffu128 * 64) by (nonlinear_arith)
            requires p <= 0xffff_ffff_ffff_ffffu128, t <= 64;
        let scaled = p * t / k;
        let r = scaled / 8 * 8;
        if r > usize::MAX as u128 {
            usize::MAX / 8 * 8
        } else {
            r as usize
        }
    }
}

} // verus!
