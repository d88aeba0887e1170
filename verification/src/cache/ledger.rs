//! Prefetch credit accounting: a per-plan credit pool that bounds how many
//! unconsumed prefetched bytes a scan may hold in the cache at once.

use vstd::prelude::*;

verus! {

/// Why a block was inserted into the cache ahead of demand.
#[derive(Clone, Copy, Debug, PartialEq, Eq, Structural)]
pub enum PrefetchIntent {
    /// Read-ahead within one task: the first demand hit does not count as a
    /// repeat access, so the block stays out of the SSD tier.
    Prefetch,
}

/// How a charged prefetch credit was resolved.
#[derive(Clone, Copy, Debug, PartialEq, Eq, Structural)]
pub enum ReleaseOutcome {
    /// A demand read consumed the prefetched block.
    Consumed,
    /// The block was evicted, or its plan cancelled, before any demand read.
    Wasted,
}

/// Fetch statistics of one prefetch call.
#[derive(Clone, Copy, Debug, PartialEq, Eq, Structural)]
pub struct PrefetchStats {
    /// Blocks newly fetched and inserted with the prefetch tag.
    pub blocks_fetched: u64,
    /// Bytes fetched from the underlying store.
    pub bytes_fetched: u64,
    /// Upstream fetch calls issued (a coalesced run counts once).
    pub fetch_requests: u64,
    /// Blocks that were already cached.
    pub blocks_already_cached: u64,
    /// Blocks that a concurrent fetch already owned.
    pub blocks_in_flight: u64,
    /// Fetch units that failed.
    pub errors: u64,
}

impl Default for PrefetchStats {
    fn default() -> (s: PrefetchStats)
        ensures
            s == PrefetchStats::zero(),
    {
        PrefetchStats {
            blocks_fetched: 0,
            bytes_fetched: 0,
            fetch_requests: 0,
            blocks_already_cached: 0,
            blocks_in_flight: 0,
            errors: 0,
        }
    }
}

impl PrefetchStats {
    /// All counts at zero.
    pub open spec fn zero() -> PrefetchStats {
        PrefetchStats {
            blocks_fetched: 0,
            bytes_fetched: 0,
            fetch_requests: 0,
            blocks_already_cached: 0,
            blocks_in_flight: 0,
            errors: 0,
        }
    }

    /// Adding `other` count by count stays within a `u64`.
    pub open spec fn fits(self, other: PrefetchStats) -> bool {
        &&& self.blocks_fetched + other.blocks_fetched <= u64::MAX
        &&& self.bytes_fetched + other.bytes_fetched <= u64::MAX
        &&& self.fetch_requests + other.fetch_requests <= u64::MAX
        &&& self.blocks_already_cached + other.blocks_already_cached <= u64::MAX
        &&& self.blocks_in_flight + other.blocks_in_flight <= u64::MAX
        &&& self.errors + other.errors <= u64::MAX
    }

    /// The two counts added field by field.
    pub open spec fn plus(self, other: PrefetchStats) -> PrefetchStats {
        PrefetchStats {
            blocks_fetched: (self.blocks_fetched + other.blocks_fetched) as u64,
            bytes_fetched: (self.bytes_fetched + other.bytes_fetched) as u64,
            fetch_requests: (self.fetch_requests + other.fetch_requests) as u64,
            blocks_already_cached: (self.blocks_already_cached
                + other.blocks_already_cached) as u64,
            blocks_in_flight: (self.blocks_in_flight + other.blocks_in_flight) as u64,
            errors: (self.errors + other.errors) as u64,
        }
    }

    /// Adds the counts of one run to the counts of the call.
    pub fn absorb(&mut self, other: &PrefetchStats)
        requires
            old(self).fits(*other),
        ensures
            *final(self) == old(self).plus(*other),
    {
        self.blocks_fetched = self.blocks_fetched + other.blocks_fetched;
        self.bytes_fetched = self.bytes_fetched + other.bytes_fetched;
        self.fetch_requests = self.fetch_requests + other.fetch_requests;
        self.blocks_already_cached = self.blocks_already_cached + other.blocks_already_cached;
        self.blocks_in_flight = self.blocks_in_flight + other.blocks_in_flight;
        self.errors = self.errors + other.errors;
    }
}

/// A per-plan credit pool. `outstanding` counts prefetched bytes in flight or
/// fetched and not yet consumed.
#[derive(Debug)]
pub struct PrefetchLedger {
    budget: u64,
    outstanding: u64,
    consumed_bytes: u64,
    wasted_bytes: u64,
}

/// The state of a ledger.
pub struct LedgerState {
    pub budget: u64,
    pub outstanding: u64,
    pub consumed_bytes: u64,
    pub wasted_bytes: u64,
}

impl View for PrefetchLedger {
    type V = LedgerState;

    closed spec fn view(&self) -> LedgerState {
        LedgerState {
            budget: self.budget,
            outstanding: self.outstanding,
            consumed_bytes: self.consumed_bytes,
            wasted_bytes: self.wasted_bytes,
        }
    }
}

impl LedgerState {
    /// A reservation of `bytes` is admitted: the ledger is idle, or the window
    /// has room for it.
    pub open spec fn admits(self, bytes: u64) -> bool {
        self.outstanding == 0 || self.outstanding + bytes <= self.budget
    }

    /// `bytes` reserved.
    pub open spec fn reserved(self, bytes: u64) -> LedgerState {
        LedgerState { outstanding: (self.outstanding + bytes) as u64, ..self }
    }

    /// `bytes` of credit given back; the count of outstanding bytes stops at zero.
    pub open spec fn refunded(self, bytes: u64) -> LedgerState {
        LedgerState {
            outstanding: if self.outstanding < bytes {
                0
            } else {
                (self.outstanding - bytes) as u64
            },
            ..self
        }
    }

    /// `bytes` of credit given back and counted by outcome.
    pub open spec fn released(self, bytes: u64, outcome: ReleaseOutcome) -> LedgerState {
        match outcome {
            ReleaseOutcome::Consumed => LedgerState {
                consumed_bytes: self.consumed_bytes.wrapping_add(bytes),
                ..self.refunded(bytes)
            },
            ReleaseOutcome::Wasted => LedgerState {
                wasted_bytes: self.wasted_bytes.wrapping_add(bytes),
                ..self.refunded(bytes)
            },
        }
    }
}

impl PrefetchLedger {
    /// A ledger with the given ahead budget in bytes.
    pub fn new(budget: u64) -> (l: PrefetchLedger)
        ensures
            l@ == (LedgerState { budget, outstanding: 0, consumed_bytes: 0, wasted_bytes: 0 }),
    {
        PrefetchLedger { budget, outstanding: 0, consumed_bytes: 0, wasted_bytes: 0 }
    }

    /// Reserves `bytes` if the ledger admits them, and says whether it did. A
    /// lone reservation larger than the whole budget is admitted, so that it
    /// makes progress.
    pub fn try_reserve(&mut self, bytes: u64) -> (ok: bool)
        requires
            old(self)@.budget == u64::MAX && old(self)@.outstanding != 0 ==> old(
                self,
            )@.outstanding + bytes <= u64::MAX,
        ensures
            ok == old(self)@.admits(bytes),
            ok ==> final(self)@ == old(self)@.reserved(bytes),
            !ok ==> final(self)@ == old(self)@,
    {
        if self.outstanding != 0 && self.outstanding.saturating_add(bytes) > self.budget {
            return false;
        }
        self.outstanding = self.outstanding + bytes;
        true
    }

    /// Returns `bytes` of credit and records the outcome.
    pub fn release(&mut self, bytes: u64, outcome: ReleaseOutcome)
        ensures
            final(self)@ == old(self)@.released(bytes, outcome),
    {
        self.outstanding = self.outstanding.saturating_sub(bytes);
        match outcome {
            ReleaseOutcome::Consumed => {
                self.consumed_bytes = self.consumed_bytes.wrapping_add(bytes);
            },
            ReleaseOutcome::Wasted => {
                self.wasted_bytes = self.wasted_bytes.wrapping_add(bytes);
            },
        }
    }

    /// Returns `bytes` of credit that never turned into a prefetched block,
    /// counting them as neither consumed nor wasted.
    pub fn refund(&mut self, bytes: u64)
        ensures
            final(self)@ == old(self)@.refunded(bytes),
    {
        self.outstanding = self.outstanding.saturating_sub(bytes);
    }

    /// Unconsumed prefetched bytes.
    pub fn outstanding(&self) -> (n: u64)
        ensures
            n == self@.outstanding,
    {
        self.outstanding
    }

    /// The ahead budget in bytes.
    pub fn budget(&self) -> (n: u64)
        ensures
            n == self@.budget,
    {
        self.budget
    }

    /// Bytes released as consumed by a demand read.
    pub fn consumed_bytes(&self) -> (n: u64)
        ensures
            n == self@.consumed_bytes,
    {
        self.consumed_bytes
    }

    /// Bytes released as wasted.
    pub fn wasted_bytes(&self) -> (n: u64)
        ensures
            n == self@.wasted_bytes,
    {
        self.wasted_bytes
    }
}

/// An admitted reservation leaves the window within its budget, unless it is
/// the only one: then it alone is outstanding.
pub proof fn window_stays_within_budget(s: LedgerState, bytes: u64)
    requires
        s.admits(bytes),
    ensures
        s.reserved(bytes).outstanding <= s.budget || (s.outstanding == 0 && s.reserved(
            bytes,
        ).outstanding == bytes),
{
}

/// An idle ledger admits every reservation, however large.
pub proof fn idle_ledger_admits_anything(s: LedgerState, bytes: u64)
    requires
        s.outstanding == 0,
    ensures
        s.admits(bytes),
{
}

/// Giving back what was reserved restores the outstanding count, whichever way
/// the credit is resolved; a refund restores the whole ledger.
pub proof fn credit_given_back_restores_the_window(
    s: LedgerState,
    bytes: u64,
    outcome: ReleaseOutcome,
)
    requires
        s.outstanding + bytes <= u64::MAX,
    ensures
        s.reserved(bytes).released(bytes, outcome).outstanding == s.outstanding,
        s.reserved(bytes).refunded(bytes) == s,
{
}

/// Two releases give back as much as one release of their sum, in any order.
pub proof fn releases_add_up(s: LedgerState, a: u64, b: u64, x: ReleaseOutcome, y: ReleaseOutcome)
    requires
        a + b <= u64::MAX,
    ensures
        s.released(a, x).released(b, y).outstanding == s.refunded((a + b) as u64).outstanding,
        s.released(a, x).released(b, y).outstanding == s.released(b, y).released(a, x).outstanding,
{
}

/// A release never makes the outstanding count grow, and never lets it wrap.
pub proof fn over_release_saturates(s: LedgerState, bytes: u64, outcome: ReleaseOutcome)
    ensures
        s.released(bytes, outcome).outstanding <= s.outstanding,
        bytes >= s.outstanding ==> s.released(bytes, outcome).outstanding == 0,
{
}

/// A reservation is admitted exactly where nothing is outstanding or the window has room for
/// it, and counts in full. What is given back is taken off in full, and a release counts by
/// its outcome and by that alone. The budget never changes.
pub proof fn credit_is_counted_in_full(s: LedgerState, bytes: u64, outcome: ReleaseOutcome)
    ensures
        s.outstanding + bytes <= s.budget ==> s.admits(bytes),
        s.outstanding > 0 && s.outstanding + bytes > s.budget ==> !s.admits(bytes),
        s.outstanding + bytes <= u64::MAX ==> s.reserved(bytes).outstanding == s.outstanding
            + bytes,
        s.reserved(bytes).budget == s.budget && s.reserved(bytes).consumed_bytes
            == s.consumed_bytes && s.reserved(bytes).wasted_bytes == s.wasted_bytes,
        bytes <= s.outstanding ==> s.refunded(bytes).outstanding == s.outstanding - bytes,
        bytes > s.outstanding ==> s.refunded(bytes).outstanding == 0,
        s.refunded(bytes).budget == s.budget && s.refunded(bytes).consumed_bytes
            == s.consumed_bytes && s.refunded(bytes).wasted_bytes == s.wasted_bytes,
        s.released(bytes, outcome).outstanding == s.refunded(bytes).outstanding,
        s.released(bytes, outcome).budget == s.budget,
        outcome == ReleaseOutcome::Consumed && s.consumed_bytes + bytes <= u64::MAX ==> s.released(
            bytes,
            outcome,
        ).consumed_bytes == s.consumed_bytes + bytes && s.released(bytes, outcome).wasted_bytes
            == s.wasted_bytes,
        outcome == ReleaseOutcome::Wasted && s.wasted_bytes + bytes <= u64::MAX ==> s.released(
            bytes,
            outcome,
        ).wasted_bytes == s.wasted_bytes + bytes && s.released(bytes, outcome).consumed_bytes
            == s.consumed_bytes,
{
}

/// The counts of runs add up, each to its own.
pub proof fn counts_add_up(a: PrefetchStats, b: PrefetchStats)
    requires
        a.fits(b),
    ensures
        a.plus(b).blocks_fetched == a.blocks_fetched + b.blocks_fetched,
        a.plus(b).bytes_fetched == a.bytes_fetched + b.bytes_fetched,
        a.plus(b).fetch_requests == a.fetch_requests + b.fetch_requests,
        a.plus(b).blocks_already_cached == a.blocks_already_cached + b.blocks_already_cached,
        a.plus(b).blocks_in_flight == a.blocks_in_flight + b.blocks_in_flight,
        a.plus(b).errors == a.errors + b.errors,
        a.plus(PrefetchStats::zero()) == a,
{
}

} // verus!
