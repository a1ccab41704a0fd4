//! The batch writer's coalescing rules: buffer incoming outcomes, flush
//! when the buffer reaches `db_batch_size` or when `flush_interval_ms` has
//! elapsed with a non-empty buffer, and drain the remainder on shutdown.
//!
//! The writer's loop itself is cooperative and lives with the runtime;
//! these are its decisions, and the flush itself is
//! `ScanStore::bulk_update_port_status` on the drained batch.

use vstd::prelude::*;

verus! {

/// The writer's in-memory buffer and flush settings.
pub struct BatchBuffer {
    pub buffer: Vec<(String, u16, bool)>,
    pub db_batch_size: usize,
    pub flush_interval_ms: u64,
    pub last_flush: i64,
}

impl BatchBuffer {
    pub fn new(db_batch_size: usize, flush_interval_ms: u64, now: i64) -> (r: BatchBuffer)
        ensures
            r.buffer@.len() == 0,
            r.db_batch_size == db_batch_size,
            r.flush_interval_ms == flush_interval_ms,
            r.last_flush == now,
    {
        BatchBuffer { buffer: Vec::new(), db_batch_size, flush_interval_ms, last_flush: now }
    }

    /// Append one received outcome; report whether the size threshold is
    /// reached, which obliges the caller to flush.
    pub fn push(&mut self, outcome: (String, u16, bool)) -> (r: bool)
        ensures
            final(self).buffer@ == old(self).buffer@.push(outcome),
            final(self).db_batch_size == old(self).db_batch_size,
            final(self).flush_interval_ms == old(self).flush_interval_ms,
            final(self).last_flush == old(self).last_flush,
            r == (final(self).buffer@.len() >= final(self).db_batch_size),
    {
        self.buffer.push(outcome);
        self.buffer.len() >= self.db_batch_size
    }

    /// Whether the timer obliges a flush: the buffer is non-empty and the
    /// flush interval has elapsed.
    pub fn should_flush_timer(&self, now: i64) -> (r: bool)
        requires
            self.last_flush >= 0,
            now >= 0,
        ensures
            r == (self.buffer@.len() > 0 && now - self.last_flush >= self.flush_interval_ms),
    {
        if self.buffer.len() == 0 {
            return false;
        }
        if now < self.last_flush {
            return false;
        }
        ((now - self.last_flush) as u64) >= self.flush_interval_ms
    }

    /// Hand the whole buffer out for one flush and restart the timer.
    pub fn take_batch(&mut self, now: i64) -> (r: Vec<(String, u16, bool)>)
        ensures
            r@ == old(self).buffer@,
            final(self).buffer@.len() == 0,
            final(self).db_batch_size == old(self).db_batch_size,
            final(self).flush_interval_ms == old(self).flush_interval_ms,
            final(self).last_flush == now,
    {
        let mut out: Vec<(String, u16, bool)> = Vec::new();
        core::mem::swap(&mut out, &mut self.buffer);
        self.last_flush = now;
        out
    }
}

} // verus!
