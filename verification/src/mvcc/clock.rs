//! Hybrid logical clock.
//!
//! A timestamp packs `(physical_ms : u48, logical : u16)` into one `u64`. Each
//! local event takes a timestamp above every earlier one of this clock, and a
//! timestamp that arrives from another node lifts the clock above it, so that
//! timestamps respect the order of causes. When the logical part is exhausted
//! within one millisecond it carries into the physical part.

use std::time::{Duration, SystemTime, SystemTimeError, UNIX_EPOCH};

use vstd::prelude::*;

use crate::types::Timestamp;

verus! {

/// Timestamps per millisecond: the logical part has 16 bits.
pub const LOGICAL_SPAN: u64 = 0x1_0000;

/// The largest physical part, which has 48 bits.
pub const MAX_PHYSICAL_MS: u64 = 0xFFFF_FFFF_FFFF;

/// `std::time::SystemTime`, an opaque reading of the system clock.
#[verifier::external_type_specification]
#[verifier::external_body]
pub struct ExSystemTime(SystemTime);

/// `std::time::SystemTimeError`, the answer when an earlier time lies ahead.
#[verifier::external_type_specification]
#[verifier::external_body]
pub struct ExSystemTimeError(SystemTimeError);

/// `SystemTime::now`. The reading is up to the machine: nothing is claimed of it.
#[verifier::external_body]
fn system_now() -> SystemTime {
    SystemTime::now()
}

/// What `SystemTime::duration_since` gives for a reading and the Unix epoch.
pub uninterp spec fn epoch_distance(t: SystemTime) -> Result<Duration, SystemTimeError>;

/// `SystemTime::duration_since` the Unix epoch: how long after the epoch the
/// reading was taken, or an error if it lies before it. The answer depends on
/// the reading alone.
#[verifier::external_body]
fn since_epoch(t: SystemTime) -> (r: Result<Duration, SystemTimeError>)
    ensures
        r == epoch_distance(t),
{
    t.duration_since(UNIX_EPOCH)
}

/// What `Duration::as_millis` gives.
pub uninterp spec fn millis_in(d: Duration) -> u128;

/// `Duration::as_millis`: the whole milliseconds in a duration, which depend on
/// the duration alone.
#[verifier::external_body]
fn whole_millis(d: &Duration) -> (ms: u128)
    ensures
        ms == millis_in(*d),
{
    d.as_millis()
}

/// The physical part for so many milliseconds since the Unix epoch: 0 before
/// it, and at most what 48 bits hold.
pub open spec fn physical_part(since: Option<u128>) -> u64 {
    match since {
        Some(ms) => if ms > MAX_PHYSICAL_MS {
            MAX_PHYSICAL_MS
        } else {
            ms as u64
        },
        None => 0,
    }
}

/// The physical part for a reading of the system clock.
pub open spec fn physical_at(t: SystemTime) -> u64 {
    match epoch_distance(t) {
        Ok(d) => physical_part(Some(millis_in(d))),
        Err(_) => physical_part(None),
    }
}

/// The physical part for so many milliseconds since the Unix epoch, or for a
/// time before it.
pub fn physical_of(since: Option<u128>) -> (ms: u64)
    ensures
        ms == physical_part(since),
        ms <= MAX_PHYSICAL_MS,
{
    match since {
        Some(ms) => if ms > MAX_PHYSICAL_MS as u128 {
            MAX_PHYSICAL_MS
        } else {
            ms as u64
        },
        None => 0,
    }
}

/// The physical part for a reading that the system clock gives now.
fn physical_now() -> (ms: u64)
    ensures
        exists|t: SystemTime| ms == #[trigger] physical_at(t),
        ms <= MAX_PHYSICAL_MS,
{
    let t = system_now();
    let ghost reading = t;
    let ms = match since_epoch(t) {
        Ok(d) => physical_of(Some(whole_millis(&d))),
        Err(_) => physical_of(None),
    };
    assert(ms == physical_at(reading));
    ms
}

/// The timestamp after `last` when the wall clock shows `phys` milliseconds:
/// the start of that millisecond if the clock has not reached it, and the next
/// timestamp otherwise.
pub open spec fn next_local(last: u64, phys: u64) -> int {
    if phys > last / LOGICAL_SPAN {
        phys * LOGICAL_SPAN
    } else {
        last + 1
    }
}

/// The timestamp after both `last` and `remote` when the wall clock shows
/// `phys` milliseconds: the start of that millisecond if it is later than both,
/// and one more than the later of the two otherwise.
pub open spec fn next_observed(last: u64, remote: u64, phys: u64) -> int {
    if phys > last / LOGICAL_SPAN && phys > remote / LOGICAL_SPAN {
        phys * LOGICAL_SPAN
    } else if last >= remote {
        last + 1
    } else {
        remote + 1
    }
}

/// A local timestamp is the least one that lies above the last one and not before
/// the millisecond that the wall clock shows.
pub proof fn lemma_local_least(last: u64, phys: u64, other: int)
    ensures
        next_local(last, phys) > last,
        next_local(last, phys) >= phys * 65536,
        other > last && other >= phys * 65536 ==> other >= next_local(last, phys),
{
    assert(last == (last / 65536) * 65536 + last % 65536) by (nonlinear_arith);
    assert(last % 65536 < 65536);
    if phys > last / 65536 {
        assert(phys * 65536 >= (last / 65536) * 65536 + 65536) by (nonlinear_arith)
            requires
                phys > last / 65536,
        ;
    } else {
        assert(phys * 65536 <= (last / 65536) * 65536) by (nonlinear_arith)
            requires
                phys <= last / 65536,
        ;
    }
}

/// After a timestamp from elsewhere the clock stands at the least one that lies
/// above both and not before the millisecond that the wall clock shows.
pub proof fn lemma_observed_least(last: u64, remote: u64, phys: u64, other: int)
    ensures
        next_observed(last, remote, phys) > last,
        next_observed(last, remote, phys) > remote,
        next_observed(last, remote, phys) >= phys * 65536,
        other > last && other > remote && other >= phys * 65536 ==> other >= next_observed(
            last,
            remote,
            phys,
        ),
{
    let later = if last >= remote {
        last
    } else {
        remote
    };
    lemma_local_least(last, phys, other);
    lemma_local_least(remote, phys, other);
    lemma_local_least(later, phys, other);
}

/// To hear of a timestamp is to have stood at the later of the two and to take a
/// local one; it does not matter which of the two was heard.
pub proof fn lemma_observed_symmetric(a: u64, b: u64, phys: u64)
    ensures
        next_observed(a, b, phys) == next_observed(b, a, phys),
        a >= b ==> next_observed(a, b, phys) == next_local(a, phys),
{
    lemma_observed_least(a, b, phys, next_observed(b, a, phys));
    lemma_observed_least(b, a, phys, next_observed(a, b, phys));
    lemma_observed_least(a, b, phys, next_local(a, phys));
    lemma_local_least(a, phys, next_observed(a, b, phys));
}

/// The physical part is the number of milliseconds as far as 48 bits hold it; it
/// never goes back while time goes on, and before the epoch it is nothing.
pub proof fn lemma_physical_part(a: u128, b: u128)
    requires
        a <= b,
    ensures
        a < 0x1_0000_0000_0000 ==> physical_part(Some(a)) == a,
        physical_part(Some(a)) < 0x1_0000_0000_0000,
        physical_part(Some(a)) <= physical_part(Some(b)),
        physical_part(None) == 0,
{
}

/// A clock, known by the last timestamp it stands at.
pub struct HybridLogicalClock {
    state: u64,
}

impl HybridLogicalClock {
    /// The timestamp that the clock stands at.
    pub closed spec fn view(&self) -> u64 {
        self.state
    }

    /// A clock that stands at the start of the current millisecond.
    pub fn new() -> (clock: Self)
        ensures
            exists|t: SystemTime| clock@ == #[trigger] physical_at(t) * LOGICAL_SPAN,
            clock@ % LOGICAL_SPAN == 0,
    {
        let phys = physical_now();
        Self::at(phys)
    }

    /// A clock that stands at the start of the millisecond `phys`.
    pub fn at(phys: u64) -> (clock: Self)
        requires
            phys <= MAX_PHYSICAL_MS,
        ensures
            clock@ == phys * LOGICAL_SPAN,
            clock@ / 65536 == phys,
            clock@ % 65536 == 0,
    {
        assert(phys * 65536 / 65536 == phys && phys * 65536 % 65536 == 0) by (nonlinear_arith);
        Self { state: phys * LOGICAL_SPAN }
    }

    /// The timestamp that the clock stands at.
    pub fn last(&self) -> (ts: Timestamp)
        ensures
            ts == self@,
    {
        self.state
    }

    /// Takes a new local timestamp, above every earlier one.
    pub fn now(&mut self) -> (ts: Timestamp)
        requires
            old(self)@ < u64::MAX,
        ensures
            ts > old(self)@,
            final(self)@ == ts,
            exists|t: SystemTime|
                ts == next_local(old(self)@, #[trigger] physical_at(t)) && ts >= physical_at(t)
                    * 65536,
    {
        let phys = physical_now();
        self.now_at(phys)
    }

    /// Takes a new local timestamp when the wall clock shows `phys` milliseconds.
    pub fn now_at(&mut self, phys: u64) -> (ts: Timestamp)
        requires
            old(self)@ < u64::MAX,
            phys <= MAX_PHYSICAL_MS,
        ensures
            ts > old(self)@,
            ts >= phys * 65536,
            ts == old(self)@ + 1 || ts == phys * 65536,
            final(self)@ == ts,
            ts == next_local(old(self)@, phys),
    {
        proof {
            lemma_local_least(self.state, phys, 0);
        }
        let next = if phys > self.state / LOGICAL_SPAN {
            phys * LOGICAL_SPAN
        } else {
            self.state + 1
        };
        self.state = next;
        next
    }

    /// Moves the clock strictly past `remote`, a timestamp that came from
    /// another node, and strictly past where it stood.
    pub fn observe(&mut self, remote: Timestamp)
        requires
            old(self)@ < u64::MAX,
            remote < u64::MAX,
        ensures
            final(self)@ > remote,
            final(self)@ > old(self)@,
            exists|t: SystemTime|
                final(self)@ == next_observed(old(self)@, remote, #[trigger] physical_at(t)),
    {
        let phys = physical_now();
        self.observe_at(remote, phys)
    }

    /// Moves the clock past `remote` when the wall clock shows `phys` milliseconds.
    pub fn observe_at(&mut self, remote: Timestamp, phys: u64)
        requires
            old(self)@ < u64::MAX,
            remote < u64::MAX,
            phys <= MAX_PHYSICAL_MS,
        ensures
            final(self)@ > remote,
            final(self)@ > old(self)@,
            final(self)@ >= phys * 65536,
            final(self)@ == next_observed(old(self)@, remote, phys),
    {
        proof {
            lemma_observed_least(self.state, remote, phys, 0);
        }
        let last = self.state;
        self.state = if phys > last / LOGICAL_SPAN && phys > remote / LOGICAL_SPAN {
            phys * LOGICAL_SPAN
        } else if last >= remote {
            last + 1
        } else {
            remote + 1
        };
    }
}

impl Default for HybridLogicalClock {
    fn default() -> (clock: Self)
        ensures
            exists|t: SystemTime| clock@ == #[trigger] physical_at(t) * LOGICAL_SPAN,
            clock@ % LOGICAL_SPAN == 0,
    {
        Self::new()
    }
}

} // verus!
