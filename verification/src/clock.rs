//! Instants and the wall clock.
use vstd::prelude::*;

verus! {

/// An instant as the contracts see it: whole seconds since
/// 1970-01-01 00:00:00 UTC and the nanoseconds past that second.
pub struct Instant {
    pub secs: int,
    pub nanos: int,
}

impl Instant {
    /// Whether `self` is not later than `other`: instants are ordered by
    /// their seconds, then by their nanoseconds.
    pub open spec fn at_or_before(self, other: Instant) -> bool {
        self.secs < other.secs || (self.secs == other.secs && self.nanos <= other.nanos)
    }

    /// The instant `minutes` minutes after `self`.
    pub open spec fn plus_minutes(self, minutes: int) -> Instant {
        Instant { secs: self.secs + 60 * minutes, nanos: self.nanos }
    }

    /// Whether the instant lies in the range of the calendar: no date that
    /// the calendar can express is further than 2^43 seconds from the epoch.
    pub open spec fn in_calendar(self) -> bool {
        -CALENDAR_LIMIT_SECS <= self.secs <= CALENDAR_LIMIT_SECS
    }

    /// Whether the seconds fit the executable representation.
    pub open spec fn representable(self) -> bool {
        i64::MIN <= self.secs <= i64::MAX
    }
}

/// No instant of the calendar lies further than this many seconds from the
/// epoch.
pub const CALENDAR_LIMIT_SECS: i64 = 0x800_0000_0000;

/// An instant in executable form.
#[derive(Debug, Clone, Copy, PartialEq, Eq, Structural)]
pub struct Timestamp {
    pub secs: i64,
    pub nanos: u32,
}

impl View for Timestamp {
    type V = Instant;

    open spec fn view(&self) -> Instant {
        Instant { secs: self.secs as int, nanos: self.nanos as int }
    }
}

impl DeepView for Timestamp {
    type V = Instant;

    open spec fn deep_view(&self) -> Instant {
        self.view()
    }
}

impl Timestamp {
    /// The instant `nanos` nanoseconds past the second `secs`.
    pub fn new(secs: i64, nanos: u32) -> (t: Timestamp)
        ensures
            t.secs == secs,
            t.nanos == nanos,
    {
        Timestamp { secs, nanos }
    }

    /// Tells whether `self` is not later than `other`.
    pub fn is_at_or_before(&self, other: &Timestamp) -> (b: bool)
        ensures
            b == self@.at_or_before(other@),
    {
        self.secs < other.secs || (self.secs == other.secs && self.nanos <= other.nanos)
    }

    /// Adds `minutes` minutes, or returns `None` where the seconds would
    /// leave `i64`.
    pub fn checked_add_minutes(&self, minutes: i64) -> (r: Option<Timestamp>)
        ensures
            r.is_some() == self@.plus_minutes(minutes as int).representable(),
            r.is_some() ==> r.unwrap()@ == self@.plus_minutes(minutes as int),
    {
        let total: i128 = self.secs as i128 + 60 * (minutes as i128);
        if total < i64::MIN as i128 || total > i64::MAX as i128 {
            None
        } else {
            Some(Timestamp { secs: total as i64, nanos: self.nanos })
        }
    }

    /// Adds `minutes` minutes.
    pub fn add_minutes(&self, minutes: i64) -> (t: Timestamp)
        requires
            self@.plus_minutes(minutes as int).representable(),
        ensures
            t@ == self@.plus_minutes(minutes as int),
    {
        let total: i128 = self.secs as i128 + 60 * (minutes as i128);
        Timestamp { secs: total as i64, nanos: self.nanos }
    }
}

/// Reads the wall clock through `chrono::Utc::now`.
///
/// The reading differs from call to call, so the contract states only what
/// holds of every `chrono::DateTime`: its date lies between the years
/// -262143 and 262142, which is less than 2^43 seconds from the epoch on
/// either side.
///
/// `chrono::Utc::now` ends the program where the system clock reads a time
/// before 1970 or beyond that calendar.  That depends on the machine and
/// not on any argument, so no precondition can leave it out: the contract
/// speaks of the calls that return.
#[verifier::external_body]
pub(crate) fn now() -> (t: Timestamp)
    ensures
        t@.in_calendar(),
{
    let dt = chrono::Utc::now();
    Timestamp { secs: dt.timestamp(), nanos: dt.timestamp_subsec_nanos() }
}

} // verus!
