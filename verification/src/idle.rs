//! When an archive that is no longer being changed has its index written.
use vstd::prelude::*;

verus! {

/// Watches for changes that the index does not hold yet. Times are nanoseconds on a clock that
/// never runs backwards.
pub struct IdleCheckpoint {
    dirty: bool,
    last_mutation: u128,
}

impl IdleCheckpoint {
    /// There are changes that the index does not hold yet.
    pub closed spec fn is_dirty(self) -> bool {
        self.dirty
    }

    /// When the last change was made.
    pub closed spec fn last(self) -> u128 {
        self.last_mutation
    }

    /// How long there has been no change.
    pub open spec fn idle_for(self, now: u128) -> int {
        if now >= self.last() {
            now - self.last()
        } else {
            0
        }
    }

    /// Starts to watch, with nothing to be written.
    pub fn start(now: u128) -> (r: Self)
        ensures
            !r.is_dirty(),
            r.last() == now,
    {
        IdleCheckpoint { dirty: false, last_mutation: now }
    }

    /// Takes note of a change.
    pub fn mark_mutated(&mut self, now: u128)
        ensures
            final(self).is_dirty(),
            final(self).last() == now,
    {
        self.last_mutation = now;
        self.dirty = true;
    }

    /// Whether the index is to be written now: there are changes, and none of them came within the
    /// last `idle_duration`.
    pub fn poll(&self, now: u128, idle_duration: u128) -> (due: bool)
        ensures
            due == (self.is_dirty() && self.idle_for(now) >= idle_duration),
    {
        if !self.dirty {
            return false;
        }
        now.saturating_sub(self.last_mutation) >= idle_duration
    }

    /// Takes note of an attempt to write the index. One that failed is made again.
    pub fn checkpointed(&mut self, succeeded: bool)
        ensures
            final(self).is_dirty() == (old(self).is_dirty() && !succeeded),
            final(self).last() == old(self).last(),
    {
        if succeeded {
            self.dirty = false;
        }
    }

    /// Takes note of an attempt to secure the whole file at once, without waiting for a pause.
    /// Hands the outcome of the attempt back.
    pub fn force<E>(&mut self, result: Result<(), E>) -> (r: Result<(), E>)
        ensures
            r == result,
            final(self).is_dirty() == (old(self).is_dirty() && result is Err),
            final(self).last() == old(self).last(),
    {
        if result.is_ok() {
            self.dirty = false;
        }
        result
    }
}

} // verus!
