//! Instants and spans of time as the broker sees them.
//!
//! An instant is a whole number of nanoseconds relative to the Unix epoch,
//! restricted to the years 0000 through 9999 that RFC 3339 can write with four
//! digits. All comparisons and sums are integer arithmetic on that number.

use vstd::prelude::*;

verus! {

/// Nanoseconds in one second.
pub const NANOS_PER_SEC: u32 = 1_000_000_000;

/// Unix time of `0000-01-01T00:00:00Z`, the earliest instant held.
pub const MIN_SECS: i64 = -62_167_219_200;

/// Unix time of `9999-12-31T23:59:59Z`, the last whole second held.
pub const MAX_SECS: i64 = 253_402_300_799;

/// Nanoseconds since the epoch for a second count and a sub-second part.
pub open spec fn instant_of(secs: int, nanos: int) -> int {
    secs * 1_000_000_000 + nanos
}

/// Whether a second count and a sub-second part lie in the range held.
pub open spec fn in_range(secs: int, nanos: int) -> bool {
    MIN_SECS <= secs <= MAX_SECS && 0 <= nanos < 1_000_000_000
}

/// The last instant held: `9999-12-31T23:59:59.999999999Z`.
pub open spec fn latest_instant() -> int {
    instant_of(MAX_SECS as int, 999_999_999)
}

/// The first instant held: `0000-01-01T00:00:00Z`.
pub open spec fn earliest_instant() -> int {
    instant_of(MIN_SECS as int, 0)
}

/// `secs` brought into the range of seconds held.
pub open spec fn clamp_secs(secs: int) -> int {
    if secs < MIN_SECS {
        MIN_SECS as int
    } else if secs > MAX_SECS {
        MAX_SECS as int
    } else {
        secs
    }
}

/// `nanos` brought below one second.
pub open spec fn clamp_nanos(nanos: int) -> int {
    if nanos >= 1_000_000_000 {
        999_999_999
    } else {
        nanos
    }
}

/// `instant` moved `secs` seconds into the future, stopping at the last
/// instant held.
pub open spec fn later_by(instant: int, secs: int) -> int {
    if instant + secs * 1_000_000_000 > latest_instant() {
        latest_instant()
    } else {
        instant + secs * 1_000_000_000
    }
}

/// `nanos` nanoseconds as whole milliseconds, rounded toward zero.
pub open spec fn millis_of(nanos: int) -> int {
    if nanos >= 0 {
        nanos / 1_000_000
    } else {
        -((-nanos) / 1_000_000)
    }
}

/// What `chrono::DateTime::<Utc>::to_rfc3339` writes for the instant that
/// lies `instant` nanoseconds after the Unix epoch.
pub uninterp spec fn rfc3339_text(instant: int) -> Seq<char>;

/// Reads the system clock with `chrono::Utc::now` and hands back its Unix
/// seconds and the nanoseconds past the second. Nothing is claimed of the
/// reading. `Utc::now` panics on a machine whose clock stands before 1970.
#[verifier::external_body]
fn read_clock() -> (parts: (i64, u32)) {
    let t = chrono::Utc::now();
    (t.timestamp(), t.timestamp_subsec_nanos())
}

/// Writes an instant with `chrono::DateTime::<Utc>::to_rfc3339`, after
/// rebuilding the `DateTime` with `DateTime::from_timestamp`. The contract
/// claims only that the text is the one named `rfc3339_text` for this instant:
/// chrono's formatting depends on nothing but the instant.
#[verifier::external_body]
pub(crate) fn write_rfc3339(t: &Timestamp) -> (text: String)
    ensures
        text@ == rfc3339_text(t@),
{
    match chrono::DateTime::from_timestamp(t.secs, t.nanos) {
        Some(d) => d.to_rfc3339(),
        None => String::new(),
    }
}

/// A UTC wall-clock instant with nanosecond resolution.
#[derive(Clone, Copy, Debug, PartialEq, Eq)]
pub struct Timestamp {
    secs: i64,
    nanos: u32,
}

impl View for Timestamp {
    type V = int;

    /// Nanoseconds since the Unix epoch.
    closed spec fn view(&self) -> int {
        instant_of(self.secs as int, self.nanos as int)
    }
}

impl Timestamp {
    #[verifier::type_invariant]
    spec fn valid(self) -> bool {
        in_range(self.secs as int, self.nanos as int)
    }

    /// The instant `secs` seconds and `nanos` nanoseconds after the epoch,
    /// or `None` when that lies outside the range held.
    pub fn new(secs: i64, nanos: u32) -> (t: Option<Timestamp>)
        ensures
            in_range(secs as int, nanos as int) ==> t.is_some() && t.unwrap()@ == instant_of(
                secs as int,
                nanos as int,
            ),
            !in_range(secs as int, nanos as int) ==> t.is_none(),
    {
        if MIN_SECS <= secs && secs <= MAX_SECS && nanos < NANOS_PER_SEC {
            Some(Timestamp { secs, nanos })
        } else {
            None
        }
    }

    /// The instant `secs` seconds and `nanos` nanoseconds after the epoch,
    /// with each part brought into the range held.
    pub fn clamped(secs: i64, nanos: u32) -> (t: Timestamp)
        ensures
            t@ == instant_of(clamp_secs(secs as int), clamp_nanos(nanos as int)),
    {
        let s: i64 = if secs < MIN_SECS {
            MIN_SECS
        } else if secs > MAX_SECS {
            MAX_SECS
        } else {
            secs
        };
        let n: u32 = if nanos >= NANOS_PER_SEC {
            NANOS_PER_SEC - 1
        } else {
            nanos
        };
        Timestamp { secs: s, nanos: n }
    }

    /// The present moment by the system clock, brought into the range held.
    /// Which instant that is depends on the clock alone.
    pub fn now() -> (t: Timestamp)
        ensures
            earliest_instant() <= t@ <= latest_instant(),
    {
        let (secs, nanos) = read_clock();
        Timestamp::clamped(secs, nanos)
    }

    /// Whole seconds since the epoch, rounded toward the past.
    pub fn secs(&self) -> (s: i64)
        ensures
            s == self@ / 1_000_000_000,
            MIN_SECS <= s <= MAX_SECS,
    {
        proof {
            use_type_invariant(self);
        }
        self.secs
    }

    /// Nanoseconds past the whole second.
    pub fn subsec_nanos(&self) -> (n: u32)
        ensures
            n == self@ % 1_000_000_000,
            n < 1_000_000_000,
    {
        proof {
            use_type_invariant(self);
        }
        self.nanos
    }

    /// Whether this instant lies strictly before `other`.
    pub fn is_before(&self, other: &Timestamp) -> (b: bool)
        ensures
            b == (self@ < other@),
    {
        proof {
            use_type_invariant(self);
            use_type_invariant(other);
        }
        self.secs < other.secs || (self.secs == other.secs && self.nanos < other.nanos)
    }

    /// This instant moved `secs` seconds into the future. A sum past the last
    /// instant held stops there.
    pub fn plus_secs(&self, secs: u32) -> (t: Timestamp)
        ensures
            t@ == later_by(self@, secs as int),
    {
        proof {
            use_type_invariant(self);
        }
        let sum: i64 = self.secs + secs as i64;
        if sum > MAX_SECS {
            Timestamp { secs: MAX_SECS, nanos: NANOS_PER_SEC - 1 }
        } else {
            Timestamp { secs: sum, nanos: self.nanos }
        }
    }

    /// The span from `earlier` to this instant; negative when `earlier` is in
    /// fact later.
    pub fn elapsed_since(&self, earlier: &Timestamp) -> (e: Elapsed)
        ensures
            e@ == self@ - earlier@,
    {
        proof {
            use_type_invariant(self);
            use_type_invariant(earlier);
        }
        let whole: i128 = (self.secs as i128 - earlier.secs as i128) * 1_000_000_000;
        let part: i128 = self.nanos as i128 - earlier.nanos as i128;
        Elapsed { nanos: whole + part }
    }
}

/// A signed span of time in nanoseconds.
#[derive(Clone, Copy, Debug, PartialEq, Eq)]
pub struct Elapsed {
    nanos: i128,
}

impl View for Elapsed {
    type V = int;

    /// The span in nanoseconds.
    closed spec fn view(&self) -> int {
        self.nanos as int
    }
}

impl Elapsed {
    #[verifier::type_invariant]
    spec fn valid(self) -> bool {
        earliest_instant() - latest_instant() <= self.nanos <= latest_instant()
            - earliest_instant()
    }

    /// The span in nanoseconds.
    pub fn nanos(&self) -> (n: i128)
        ensures
            n == self@,
    {
        self.nanos
    }

    /// The span in whole milliseconds, rounded toward zero.
    pub fn num_milliseconds(&self) -> (ms: i64)
        ensures
            ms == millis_of(self@),
    {
        proof {
            use_type_invariant(self);
        }
        if self.nanos >= 0 {
            (self.nanos / 1_000_000) as i64
        } else {
            -(((-self.nanos) / 1_000_000) as i64)
        }
    }
}

} // verus!
