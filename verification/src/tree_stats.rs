//! Statistics of a tree seen as transactions: how many operations succeeded
//! and how many had to restart after a conflict.

use vstd::prelude::*;

use crate::util::Counter;

verus! {

/// Statistics of a tree.
#[derive(Clone, Copy, Debug)]
pub struct Stats {
    pub success: TxnStats,
    pub restart: TxnStats,
}

/// The live counters behind `Stats`.
pub struct AtomicStats {
    pub success: AtomicTxnStats,
    pub restart: AtomicTxnStats,
}

impl AtomicStats {
    pub fn snapshot(&self) -> (r: Stats)
        ensures
            r.success.get == self.success.get.value,
            r.success.write == self.success.write.value,
            r.success.split_page == self.success.split_page.value,
            r.success.consolidate_page == self.success.consolidate_page.value,
            r.restart.get == self.restart.get.value,
            r.restart.write == self.restart.write.value,
            r.restart.split_page == self.restart.split_page.value,
            r.restart.consolidate_page == self.restart.consolidate_page.value,
    {
        Stats { success: self.success.snapshot(), restart: self.restart.snapshot() }
    }
}

impl Default for AtomicStats {
    fn default() -> (r: Self)
        ensures
            r.success.get.value == 0,
            r.restart.get.value == 0,
    {
        AtomicStats { success: AtomicTxnStats::default(), restart: AtomicTxnStats::default() }
    }
}

/// Statistics of tree transactions.
#[derive(Clone, Copy, Debug)]
pub struct TxnStats {
    pub get: u64,
    pub write: u64,
    pub split_page: u64,
    pub consolidate_page: u64,
}

/// The live transaction counters.
pub struct AtomicTxnStats {
    pub get: Counter,
    pub write: Counter,
    pub split_page: Counter,
    pub consolidate_page: Counter,
}

impl AtomicTxnStats {
    pub fn snapshot(&self) -> (r: TxnStats)
        ensures
            r.get == self.get.value,
            r.write == self.write.value,
            r.split_page == self.split_page.value,
            r.consolidate_page == self.consolidate_page.value,
    {
        TxnStats {
            get: self.get.get(),
            write: self.write.get(),
            split_page: self.split_page.get(),
            consolidate_page: self.consolidate_page.get(),
        }
    }
}

impl Default for AtomicTxnStats {
    fn default() -> (r: Self)
        ensures
            r.get.value == 0,
            r.write.value == 0,
            r.split_page.value == 0,
            r.consolidate_page.value == 0,
    {
        AtomicTxnStats {
            get: Counter::new(),
            write: Counter::new(),
            split_page: Counter::new(),
            consolidate_page: Counter::new(),
        }
    }
}

} // verus!
