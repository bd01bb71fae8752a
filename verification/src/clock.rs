//! Wall-clock limits.

use std::time::Instant;

use vstd::prelude::*;

verus! {

/// A point in time of the machine's monotonic clock.
#[verifier::external_type_specification]
#[verifier::external_body]
pub struct ExInstant(Instant);

/// A length of time.
#[derive(Clone, Copy, Debug, PartialEq, Eq, Structural)]
pub struct TimeSpan {
    pub nanos: u128,
}

impl TimeSpan {
    /// That many seconds.
    pub fn from_secs(secs: u64) -> (r: TimeSpan)
        ensures
            r.nanos == secs * 1_000_000_000,
    {
        TimeSpan { nanos: secs as u128 * 1_000_000_000 }
    }

    /// That many milliseconds.
    pub fn from_millis(millis: u64) -> (r: TimeSpan)
        ensures
            r.nanos == millis * 1_000_000,
    {
        TimeSpan { nanos: millis as u128 * 1_000_000 }
    }

    /// The whole milliseconds in it.
    pub fn as_millis(&self) -> (r: u128)
        ensures
            r == self.nanos / 1_000_000,
    {
        self.nanos / 1_000_000
    }
}

/// Reads the clock with `Instant::now`. What it shows depends on the machine, so nothing
/// is claimed of it.
#[verifier::external_body]
pub(crate) fn now() -> (r: Instant) {
    Instant::now()
}

/// The nanoseconds that `Instant::elapsed` says have passed since then. What it says
/// depends on the machine, so nothing is claimed of it.
#[verifier::external_body]
pub(crate) fn nanos_since(then: &Instant) -> (r: u128) {
    then.elapsed().as_nanos()
}

/// A stopwatch with a limit, or one that never runs out.
pub struct Clock {
    started: Option<Instant>,
    limit: TimeSpan,
}

impl Clock {
    /// Can the time run out?
    pub closed spec fn timed(&self) -> bool {
        self.started is Some
    }

    /// The limit.
    pub closed spec fn limit(&self) -> TimeSpan {
        self.limit
    }

    /// A stopwatch that starts now.
    pub fn start(limit: TimeSpan) -> (r: Clock)
        ensures
            r.timed(),
            r.limit() == limit,
    {
        Clock { started: Some(now()), limit }
    }

    /// A stopwatch that never runs out.
    pub fn stopped(limit: TimeSpan) -> (r: Clock)
        ensures
            !r.timed(),
            r.limit() == limit,
    {
        Clock { started: None, limit }
    }

    /// Has the limit been passed? Never where the time cannot run out; else that is what
    /// some reading of the stopwatch says. Which reading is left to the machine.
    pub fn late(&self) -> (b: bool)
        ensures
            !self.timed() ==> !b,
            self.timed() ==> exists|nanos: u128| b == #[trigger] beyond(nanos, self.limit()),
    {
        match &self.started {
            Some(then) => {
                let nanos: u128 = nanos_since(then);
                let b = passed(nanos, self.limit);
                assert(b == beyond(nanos, self.limit()));
                b
            },
            None => false,
        }
    }
}

/// Is a reading of the stopwatch beyond the limit?
pub open spec fn beyond(nanos: u128, limit: TimeSpan) -> bool {
    nanos > limit.nanos
}

/// Is a reading of the stopwatch beyond the limit?
pub fn passed(nanos: u128, limit: TimeSpan) -> (b: bool)
    ensures
        b == beyond(nanos, limit),
{
    nanos > limit.nanos
}

/// The milliseconds of a reading of the stopwatch, as far as 64 bits show them.
pub fn whole_millis(nanos: u128) -> (r: u64)
    ensures
        r == (nanos / 1_000_000) % 0x1_0000_0000_0000_0000,
{
    let millis: u128 = nanos / 1_000_000;
    (millis % 0x1_0000_0000_0000_0000) as u64
}

/// A limit is passed by every later reading and by none up to the limit itself.
pub proof fn lemma_beyond(early: u128, late: u128, limit: TimeSpan)
    requires
        early <= late,
    ensures
        beyond(early, limit) ==> beyond(late, limit),
        early <= limit.nanos ==> !beyond(early, limit),
        limit.nanos < late ==> beyond(late, limit),
{
}

} // verus!
