//! Statistics of the tree engine: operation and structure-modification
//! counters, with atomic-style accumulators and plain snapshots.

use vstd::prelude::*;

use crate::util::Counter;

verus! {

/// A snapshot of every engine counter.
#[derive(Clone, Copy, Debug)]
pub struct Stats {
    pub cache_size: u64,
    pub op_succeeded: OpStats,
    pub op_conflicted: OpStats,
    pub smo_succeeded: SmoStats,
    pub smo_conflicted: SmoStats,
    pub num_visit_pages: u64,
}

/// The live counters behind `Stats`.
pub struct AtomicStats {
    pub op_succeeded: AtomicOpStats,
    pub op_conflicted: AtomicOpStats,
    pub smo_succeeded: AtomicSmoStats,
    pub smo_conflicted: AtomicSmoStats,
    pub num_visit_pages: Counter,
}

/// A snapshot of the user-operation counters.
#[derive(Clone, Copy, Debug)]
pub struct OpStats {
    pub num_gets: u64,
    pub num_inserts: u64,
}

/// The live user-operation counters.
pub struct AtomicOpStats {
    pub num_gets: Counter,
    pub num_inserts: Counter,
}

impl AtomicOpStats {
    pub fn snapshot(&self) -> (r: OpStats)
        ensures
            r.num_gets == self.num_gets.value,
            r.num_inserts == self.num_inserts.value,
    {
        OpStats { num_gets: self.num_gets.get(), num_inserts: self.num_inserts.get() }
    }
}

impl Default for AtomicOpStats {
    fn default() -> (r: Self)
        ensures
            r.num_gets.value == 0,
            r.num_inserts.value == 0,
    {
        AtomicOpStats { num_gets: Counter::new(), num_inserts: Counter::new() }
    }
}

/// A snapshot of the structure-modification counters.
#[derive(Clone, Copy, Debug)]
pub struct SmoStats {
    pub num_data_splits: u64,
    pub num_data_consolidates: u64,
    pub num_index_splits: u64,
    pub num_index_consolidates: u64,
}

/// The live structure-modification counters.
pub struct AtomicSmoStats {
    pub num_data_splits: Counter,
    pub num_data_consolidates: Counter,
    pub num_index_splits: Counter,
    pub num_index_consolidates: Counter,
}

impl AtomicSmoStats {
    pub fn snapshot(&self) -> (r: SmoStats)
        ensures
            r.num_data_splits == self.num_data_splits.value,
            r.num_data_consolidates == self.num_data_consolidates.value,
            r.num_index_splits == self.num_index_splits.value,
            r.num_index_consolidates == self.num_index_consolidates.value,
    {
        SmoStats {
            num_data_splits: self.num_data_splits.get(),
            num_data_consolidates: self.num_data_consolidates.get(),
            num_index_splits: self.num_index_splits.get(),
            num_index_consolidates: self.num_index_consolidates.get(),
        }
    }
}

impl Default for AtomicSmoStats {
    fn default() -> (r: Self)
        ensures
            r.num_data_splits.value == 0,
            r.num_data_consolidates.value == 0,
            r.num_index_splits.value == 0,
            r.num_index_consolidates.value == 0,
    {
        AtomicSmoStats {
            num_data_splits: Counter::new(),
            num_data_consolidates: Counter::new(),
            num_index_splits: Counter::new(),
            num_index_consolidates: Counter::new(),
        }
    }
}

impl Default for AtomicStats {
    fn default() -> (r: Self)
        ensures
            r.num_visit_pages.value == 0,
    {
        AtomicStats {
            op_succeeded: AtomicOpStats::default(),
            op_conflicted: AtomicOpStats::default(),
            smo_succeeded: AtomicSmoStats::default(),
            smo_conflicted: AtomicSmoStats::default(),
            num_visit_pages: Counter::new(),
        }
    }
}

} // verus!
