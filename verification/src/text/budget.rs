//! The bookkeeping of a bounded cache of rendered text: how many entries it
//! holds and how many bytes they take, against an entry limit and a byte
//! budget.
//!
//! Eviction is wholesale: when a new entry would break either bound, the
//! whole cache is cleared first. The working set is screen-sized, and an LRU
//! would add a timestamp and a mutation to every otherwise read-only hit. A
//! single entry larger than the whole budget is still stored (into an
//! empty cache): refusing it would mean re-rendering it on every frame.

use vstd::prelude::*;

verus! {

/// Entry and byte counts of a cache, with its bounds.
#[derive(Debug, Clone, Copy, PartialEq, Eq, Structural)]
pub struct CacheBudget {
    entry_limit: usize,
    byte_budget: usize,
    count: usize,
    bytes: usize,
    evictions: u64,
}

impl CacheBudget {
    /// The most entries held at once.
    pub closed spec fn entry_limit_spec(&self) -> usize {
        self.entry_limit
    }

    /// The most bytes held at once, one oversized entry apart.
    pub closed spec fn byte_budget_spec(&self) -> usize {
        self.byte_budget
    }

    /// Entries held.
    pub closed spec fn count_spec(&self) -> usize {
        self.count
    }

    /// Bytes held (saturating).
    pub closed spec fn bytes_spec(&self) -> usize {
        self.bytes
    }

    /// Wholesale clears so far.
    pub closed spec fn evictions_spec(&self) -> u64 {
        self.evictions
    }

    /// The bounds hold: never more entries than the limit, and never more
    /// bytes than the budget unless the cache holds a single entry.
    pub open spec fn wf(&self) -> bool {
        &&& self.entry_limit_spec() >= 1
        &&& self.byte_budget_spec() >= 1
        &&& self.count_spec() <= self.entry_limit_spec()
        &&& (self.count_spec() <= 1 || self.bytes_spec() <= self.byte_budget_spec())
        &&& (self.count_spec() == 0 ==> self.bytes_spec() == 0)
    }

    /// An empty cache's bookkeeping; a bound of 0 is taken as 1.
    pub fn new(entry_limit: usize, byte_budget: usize) -> (result: CacheBudget)
        ensures
            result.wf(),
            result.entry_limit_spec() == if entry_limit >= 1 { entry_limit } else { 1 },
            result.byte_budget_spec() == if byte_budget >= 1 { byte_budget } else { 1 },
            result.count_spec() == 0,
            result.bytes_spec() == 0,
            result.evictions_spec() == 0,
    {
        CacheBudget {
            entry_limit: if entry_limit >= 1 { entry_limit } else { 1 },
            byte_budget: if byte_budget >= 1 { byte_budget } else { 1 },
            count: 0,
            bytes: 0,
            evictions: 0,
        }
    }

    /// The bytes held once `bytes` more are added, saturating.
    pub open spec fn bytes_after(&self, bytes: usize) -> int {
        if self.bytes_spec() + bytes > usize::MAX {
            usize::MAX as int
        } else {
            self.bytes_spec() + bytes
        }
    }

    /// Whether storing an entry of `bytes` has to clear the cache first.
    pub open spec fn must_clear(&self, bytes: usize) -> bool {
        self.count_spec() >= self.entry_limit_spec()
            || (self.count_spec() > 0 && self.bytes_after(bytes) > self.byte_budget_spec())
    }

    /// Account for a new entry of `bytes`, clearing first if it would break a
    /// bound. Returns whether the cache has to be cleared before the entry is
    /// stored.
    pub fn record(&mut self, bytes: usize) -> (result: bool)
        requires
            old(self).wf(),
            old(self).evictions_spec() < u64::MAX,
        ensures
            final(self).wf(),
            result == old(self).must_clear(bytes),
            final(self).entry_limit_spec() == old(self).entry_limit_spec(),
            final(self).byte_budget_spec() == old(self).byte_budget_spec(),
            final(self).evictions_spec() == old(self).evictions_spec() + if result { 1int } else { 0int },
            final(self).count_spec() == if result { 1 } else { old(self).count_spec() + 1 },
            result ==> final(self).bytes_spec() == bytes,
            !result ==> final(self).bytes_spec() == old(self).bytes_after(bytes),
    {
        let clear = self.count >= self.entry_limit
            || (self.count > 0 && self.bytes.saturating_add(bytes) > self.byte_budget);
        if clear {
            self.evictions = self.evictions + 1;
            self.count = 0;
            self.bytes = 0;
        }
        self.count = self.count + 1;
        self.bytes = self.bytes.saturating_add(bytes);
        clear
    }

    /// Forget every entry, as when the cache is cleared for another reason.
    pub fn reset(&mut self)
        ensures
            final(self).count_spec() == 0,
            final(self).bytes_spec() == 0,
            final(self).entry_limit_spec() == old(self).entry_limit_spec(),
            final(self).byte_budget_spec() == old(self).byte_budget_spec(),
            final(self).evictions_spec() == old(self).evictions_spec(),
            old(self).wf() ==> final(self).wf(),
    {
        self.count = 0;
        self.bytes = 0;
    }

    /// Entries held.
    pub fn len(&self) -> (result: usize)
        ensures
            result == self.count_spec(),
    {
        self.count
    }

    /// Whether nothing is held.
    pub fn is_empty(&self) -> (result: bool)
        ensures
            result == (self.count_spec() == 0),
    {
        self.count == 0
    }

    /// Bytes held.
    pub fn bytes(&self) -> (result: usize)
        ensures
            result == self.bytes_spec(),
    {
        self.bytes
    }

    /// Wholesale clears so far. Rising every frame means the bounds are too
    /// small for the screen.
    pub fn evictions(&self) -> (result: u64)
        ensures
            result == self.evictions_spec(),
    {
        self.evictions
    }
}

} // verus!
