//! Throughput counters: files seen and bytes hashed. Observability only;
//! the pipeline shares one instance and a sampler reads it periodically.

use vstd::prelude::*;

verus! {

/// File and byte counters for one run.
pub struct Stats {
    pub fc: u64,
    pub bc: u64,
}

impl Stats {
    pub fn new() -> (r: Stats)
        ensures
            r.fc == 0,
            r.bc == 0,
    {
        Stats { fc: 0, bc: 0 }
    }

    /// Account one hashed file of `bytes` bytes. The counters saturate
    /// rather than wrap; they are reporting, not bookkeeping.
    pub fn record_file(&mut self, bytes: u64)
        ensures
            final(self).fc == (if old(self).fc == u64::MAX {
                u64::MAX as int
            } else {
                old(self).fc + 1
            }),
            final(self).bc == (if old(self).bc + bytes <= u64::MAX {
                old(self).bc + bytes
            } else {
                u64::MAX as int
            }),
    {
        if self.fc < u64::MAX {
            self.fc = self.fc + 1;
        }
        if bytes <= u64::MAX - self.bc {
            self.bc = self.bc + bytes;
        } else {
            self.bc = u64::MAX;
        }
    }

    /// Whole gigabytes hashed, as the periodic sampler reports them.
    pub fn gigabytes(&self) -> (r: u64)
        ensures
            r == self.bc / 1073741824,
    {
        self.bc / 1073741824
    }
}

} // verus!
