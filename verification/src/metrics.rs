//! Shared scan counters: probes sent, open ports seen, errors, retries.

use vstd::prelude::*;
use crate::ip::dec_str;
use crate::ip::u64_to_string;

verus! {

/// Counters kept by every probe worker. Each counter saturates at
/// `u64::MAX` instead of wrapping, so a reading never goes backwards.
pub struct ScanMetrics {
    pub scanned: u64,
    pub open: u64,
    pub errors: u64,
    pub retries: u64,
}

impl ScanMetrics {
    pub fn new() -> (r: ScanMetrics)
        ensures
            r.scanned == 0,
            r.open == 0,
            r.errors == 0,
            r.retries == 0,
    {
        ScanMetrics { scanned: 0, open: 0, errors: 0, retries: 0 }
    }

    pub fn increment_scanned(&mut self)
        ensures
            final(self).scanned == if old(self).scanned < u64::MAX {
                old(self).scanned + 1
            } else {
                old(self).scanned as int
            },
            final(self).open == old(self).open,
            final(self).errors == old(self).errors,
            final(self).retries == old(self).retries,
    {
        if self.scanned < u64::MAX {
            self.scanned = self.scanned + 1;
        }
    }

    pub fn increment_open(&mut self)
        ensures
            final(self).open == if old(self).open < u64::MAX {
                old(self).open + 1
            } else {
                old(self).open as int
            },
            final(self).scanned == old(self).scanned,
            final(self).errors == old(self).errors,
            final(self).retries == old(self).retries,
    {
        if self.open < u64::MAX {
            self.open = self.open + 1;
        }
    }

    pub fn increment_errors(&mut self)
        ensures
            final(self).errors == if old(self).errors < u64::MAX {
                old(self).errors + 1
            } else {
                old(self).errors as int
            },
            final(self).scanned == old(self).scanned,
            final(self).open == old(self).open,
            final(self).retries == old(self).retries,
    {
        if self.errors < u64::MAX {
            self.errors = self.errors + 1;
        }
    }

    pub fn increment_retries(&mut self)
        ensures
            final(self).retries == if old(self).retries < u64::MAX {
                old(self).retries + 1
            } else {
                old(self).retries as int
            },
            final(self).scanned == old(self).scanned,
            final(self).open == old(self).open,
            final(self).errors == old(self).errors,
    {
        if self.retries < u64::MAX {
            self.retries = self.retries + 1;
        }
    }

    pub fn get_scanned(&self) -> (r: u64)
        ensures
            r == self.scanned,
    {
        self.scanned
    }

    pub fn get_open(&self) -> (r: u64)
        ensures
            r == self.open,
    {
        self.open
    }

    pub fn get_errors(&self) -> (r: u64)
        ensures
            r == self.errors,
    {
        self.errors
    }

    pub fn get_retries(&self) -> (r: u64)
        ensures
            r == self.retries,
    {
        self.retries
    }

    /// One line summarizing the counters, for the harness to log.
    pub fn summary(&self) -> (r: String)
        ensures
            r@ == "scanned="@ + dec_str(self.scanned as int) + " open="@ + dec_str(
                self.open as int,
            ) + " errors="@ + dec_str(self.errors as int) + " retries="@ + dec_str(
                self.retries as int,
            ),
    {
        let mut out = String::from_str("scanned=");
        out.append(u64_to_string(self.scanned).as_str());
        out.append(" open=");
        out.append(u64_to_string(self.open).as_str());
        out.append(" errors=");
        out.append(u64_to_string(self.errors).as_str());
        out.append(" retries=");
        out.append(u64_to_string(self.retries).as_str());
        out
    }
}

} // verus!
