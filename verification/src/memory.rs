//! The memory that the process uses, as it was last measured.

use vstd::prelude::*;

verus! {

/// The number of bytes of memory in use at the last measurement.
#[derive(Debug, Clone, Copy)]
pub struct MemUsage {
    pub usage: u64,
}

impl MemUsage {
    /// A record that no measurement has been written to yet.
    pub fn new() -> (memory: MemUsage)
        ensures
            memory.usage == 0,
    {
        MemUsage { usage: 0 }
    }

    /// Writes a measurement to the record.
    pub fn update(&mut self, usage: u64)
        ensures
            final(self).usage == usage,
    {
        self.usage = usage;
    }

    /// The last measurement.
    pub fn get(&self) -> (usage: u64)
        ensures
            usage == self.usage,
    {
        self.usage
    }
}

} // verus!
