//! Progress events of the top search level, and the arithmetic behind their
//! time estimates. All times are whole nanoseconds.

use std::time::Instant;
use vstd::prelude::*;

verus! {

/// Nanoseconds in one second.
pub const NANOS_PER_SECOND: u128 = 1_000_000_000;

/// `std::time::Instant`, a reading of the monotonic clock.
#[verifier::external_type_specification]
#[verifier::external_body]
pub struct ExInstant(Instant);

/// `Instant::now`: the current reading of the clock. Nothing is known of it.
#[verifier::external_body]
pub(crate) fn clock_start() -> (start: Instant) {
    Instant::now()
}

/// `Instant::elapsed`: the time since `start`, as whole seconds and the
/// nanoseconds beyond them. Nothing is known of it but its types.
#[verifier::external_body]
pub(crate) fn clock_elapsed(start: &Instant) -> (elapsed: (u64, u32)) {
    let elapsed = start.elapsed();
    (elapsed.as_secs(), elapsed.subsec_nanos())
}

/// The projected time still needed when `processed` of `total` candidates
/// took `elapsed`: the mean time per candidate so far, rounded down, times
/// the candidates that remain.
pub open spec fn projected_left(elapsed: nat, processed: nat, total: nat) -> nat {
    ((elapsed / processed) * (total - processed)) as nat
}

/// The projected time of the whole level: what has passed plus what is
/// projected to remain.
pub open spec fn projected_total(elapsed: nat, processed: nat, total: nat) -> nat {
    elapsed + projected_left(elapsed, processed, total)
}

/// What a progress event says apart from its times.
pub struct Tick {
    pub processed: nat,
    pub total: nat,
    pub count: nat,
}

/// A progress event of the top search level.
#[derive(Debug, Clone, Copy, PartialEq, Eq, Structural)]
pub struct ProgressEvent {
    /// Candidates processed so far.
    pub processed: usize,
    /// Candidates in all.
    pub total: usize,
    /// Time spent on this level so far.
    pub elapsed: u128,
    /// Projected time of the whole level.
    pub eta_total: u128,
    /// Projected time still needed.
    pub eta_left: u128,
    /// Running node count.
    pub count: usize,
}

impl ProgressEvent {
    /// The event without its times.
    pub open spec fn tick(&self) -> Tick {
        Tick { processed: self.processed as nat, total: self.total as nat, count: self.count as nat }
    }

    /// The two estimates are the projections from the elapsed time.
    pub open spec fn wf(&self) -> bool {
        &&& 0 < self.processed <= self.total
        &&& self.eta_left == projected_left(
            self.elapsed as nat,
            self.processed as nat,
            self.total as nat,
        )
        &&& self.eta_total == projected_total(
            self.elapsed as nat,
            self.processed as nat,
            self.total as nat,
        )
    }

    /// The event for `processed` of `total` candidates done in `elapsed`,
    /// with `count` nodes counted so far.
    pub fn new(elapsed: u128, processed: usize, total: usize, count: usize) -> (event:
        ProgressEvent)
        requires
            0 < processed <= total,
            projected_total(elapsed as nat, processed as nat, total as nat) <= u128::MAX,
        ensures
            event.wf(),
            event.elapsed == elapsed,
            event.processed == processed,
            event.total == total,
            event.count == count,
    {
        let per_candidate = elapsed / processed as u128;
        let remaining = (total - processed) as u128;
        assert(per_candidate * remaining >= 0) by (nonlinear_arith)
            requires
                per_candidate >= 0,
                remaining >= 0,
        ;
        let eta_left = per_candidate * remaining;
        let eta_total = elapsed + eta_left;
        ProgressEvent { processed, total, elapsed, eta_total, eta_left, count }
    }
}

/// A clock reading of whole seconds and nanoseconds beyond them, in
/// nanoseconds.
pub fn nanos_of(seconds: u64, subsec_nanos: u32) -> (nanos: u128)
    ensures
        nanos == seconds * NANOS_PER_SECOND + subsec_nanos,
{
    assert(seconds * NANOS_PER_SECOND <= 0xffff_ffff_ffff_ffff * NANOS_PER_SECOND)
        by (nonlinear_arith)
        requires
            seconds <= 0xffff_ffff_ffff_ffff,
    ;
    seconds as u128 * NANOS_PER_SECOND + subsec_nanos as u128
}

/// Projections from a clock reading fit in `u128` for every catalog-sized
/// number of candidates.
pub proof fn lemma_projection_fits(seconds: u64, subsec_nanos: u32, processed: nat, total: nat)
    requires
        0 < processed <= total <= 0xffff,
    ensures
        projected_total(
            (seconds * NANOS_PER_SECOND + subsec_nanos) as nat,
            processed,
            total,
        ) <= u128::MAX,
{
    let elapsed = (seconds * NANOS_PER_SECOND + subsec_nanos) as nat;
    let bound: nat = 0x1_0000_0000_0000_0000 * 1_000_000_000 + 0x1_0000_0000;
    assert(seconds * NANOS_PER_SECOND <= 0x1_0000_0000_0000_0000 * 1_000_000_000)
        by (nonlinear_arith)
        requires
            seconds <= 0x1_0000_0000_0000_0000,
            NANOS_PER_SECOND == 1_000_000_000,
    ;
    assert(elapsed <= bound);
    let per = elapsed / processed;
    assert(per <= elapsed) by (nonlinear_arith)
        requires
            per == elapsed / processed,
            processed > 0,
    ;
    let remaining = (total - processed) as nat;
    assert(per * remaining <= bound * 0xffff) by (nonlinear_arith)
        requires
            per <= bound,
            remaining <= 0xffff,
    ;
}

} // verus!
