//! Small shared utilities: the event counter behind the statistics.

use vstd::prelude::*;

verus! {

/// An event counter; it wraps around at the top of its range.
#[derive(Clone, Copy, Debug)]
pub struct Counter {
    pub value: u64,
}

impl Counter {
    pub fn new() -> (r: Self)
        ensures
            r.value == 0,
    {
        Counter { value: 0 }
    }

    pub fn get(&self) -> (r: u64)
        ensures
            r == self.value,
    {
        self.value
    }

    pub fn inc(&mut self)
        ensures
            final(self).value == if old(self).value == u64::MAX {
                0u64
            } else {
                (old(self).value + 1) as u64
            },
    {
        if self.value == u64::MAX {
            self.value = 0;
        } else {
            self.value = self.value + 1;
        }
    }
}

impl Default for Counter {
    fn default() -> (r: Self)
        ensures
            r.value == 0,
    {
        Counter::new()
    }
}

} // verus!
