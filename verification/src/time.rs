//! Instants in UTC, their calendar dates and the time elapsed between them,
//! computed by chrono.

use vstd::prelude::*;

verus! {

/// What chrono makes of the UNIX instant `secs` seconds and `nanos`
/// nanoseconds after the epoch: `None` when `DateTime::<Utc>::from_timestamp`
/// rejects the pair, otherwise the calendar date printed with `%Y-%m-%d`.
pub uninterp spec fn spec_utc_date(secs: i64, nanos: u32) -> Option<Seq<char>>;

/// The whole seconds (`TimeDelta::num_seconds`) of the signed duration from
/// the earlier instant to the later one, as chrono computes it.
pub uninterp spec fn spec_seconds_between(
    later_secs: i64,
    later_nanos: u32,
    earlier_secs: i64,
    earlier_nanos: u32,
) -> i64;

/// Calls `chrono::DateTime::<Utc>::from_timestamp(secs, nanos)` and formats
/// the result with `%Y-%m-%d`. The contract claims only that the outcome is
/// the named result `spec_utc_date` of the two arguments.
#[verifier::external_body]
fn utc_date(secs: i64, nanos: u32) -> (res: Option<String>)
    ensures
        match res {
            Some(s) => spec_utc_date(secs, nanos) == Some(s@),
            None => spec_utc_date(secs, nanos) is None,
        },
{
    match chrono::DateTime::from_timestamp(secs, nanos) {
        Some(dt) => Some(dt.format("%Y-%m-%d").to_string()),
        None => None,
    }
}

/// Calls `chrono::Utc::now()` and returns its `timestamp()` and
/// `timestamp_subsec_nanos()`. chrono documents that `from_timestamp`
/// round-trips these two values, which is what the contract states; the
/// instant itself depends on the clock and is left free.
#[verifier::external_body]
fn utc_now_parts() -> (res: (i64, u32))
    ensures
        spec_utc_date(res.0, res.1) is Some,
{
    let now = chrono::Utc::now();
    (now.timestamp(), now.timestamp_subsec_nanos())
}

/// Calls `DateTime::signed_duration_since` on the two instants rebuilt with
/// `from_timestamp` and returns `TimeDelta::num_seconds` of the result. Both
/// instants must be ones that `from_timestamp` accepts; the contract names
/// the result `spec_seconds_between` of the four arguments.
#[verifier::external_body]
fn seconds_between(later_secs: i64, later_nanos: u32, earlier_secs: i64, earlier_nanos: u32) -> (res: i64)
    requires
        spec_utc_date(later_secs, later_nanos) is Some,
        spec_utc_date(earlier_secs, earlier_nanos) is Some,
    ensures
        res == spec_seconds_between(later_secs, later_nanos, earlier_secs, earlier_nanos),
{
    let later = chrono::DateTime::from_timestamp(later_secs, later_nanos).unwrap();
    let earlier = chrono::DateTime::from_timestamp(earlier_secs, earlier_nanos).unwrap();
    later.signed_duration_since(earlier).num_seconds()
}

/// A UTC instant: whole seconds since the UNIX epoch and the nanoseconds
/// past them, always one that chrono can represent.
pub struct Timestamp {
    secs: i64,
    nanos: u32,
}

impl Timestamp {
    #[verifier::type_invariant]
    spec fn representable(self) -> bool {
        spec_utc_date(self.secs, self.nanos) is Some
    }

    /// Seconds since the epoch.
    pub closed spec fn unix_secs(self) -> i64 {
        self.secs
    }

    /// Nanoseconds past `unix_secs`.
    pub closed spec fn unix_nanos(self) -> u32 {
        self.nanos
    }

    /// The calendar date, `YYYY-MM-DD`.
    pub open spec fn date_text(self) -> Seq<char> {
        spec_utc_date(self.unix_secs(), self.unix_nanos()).unwrap()
    }

    /// Chronological order: by seconds, then by nanoseconds.
    pub open spec fn spec_le(self, other: Timestamp) -> bool {
        self.unix_secs() < other.unix_secs()
            || (self.unix_secs() == other.unix_secs() && self.unix_nanos() <= other.unix_nanos())
    }

    /// Whole seconds elapsed from `self` to `later`.
    pub open spec fn seconds_until(self, later: Timestamp) -> i64 {
        spec_seconds_between(later.unix_secs(), later.unix_nanos(), self.unix_secs(), self.unix_nanos())
    }

    /// The instant `secs` seconds and `nanos` nanoseconds after the epoch,
    /// when chrono can represent it.
    pub fn from_unix(secs: i64, nanos: u32) -> (res: Option<Timestamp>)
        ensures
            res is Some <==> spec_utc_date(secs, nanos) is Some,
            res matches Some(t) ==> t.unix_secs() == secs && t.unix_nanos() == nanos,
    {
        match utc_date(secs, nanos) {
            Some(_) => Some(Timestamp { secs, nanos }),
            None => None,
        }
    }

    /// The current instant, read from the system clock.
    pub fn now() -> (res: Timestamp) {
        let (secs, nanos) = utc_now_parts();
        Timestamp { secs, nanos }
    }

    /// Seconds since the epoch.
    pub fn secs(&self) -> (res: i64)
        ensures
            res == self.unix_secs(),
    {
        self.secs
    }

    /// Nanoseconds past `secs`.
    pub fn nanos(&self) -> (res: u32)
        ensures
            res == self.unix_nanos(),
    {
        self.nanos
    }

    /// The calendar date, `YYYY-MM-DD` (chrono's `%Y-%m-%d`).
    pub fn date(&self) -> (res: String)
        ensures
            res@ == self.date_text(),
    {
        proof {
            use_type_invariant(self);
        }
        match utc_date(self.secs, self.nanos) {
            Some(s) => s,
            None => String::new(),
        }
    }

    /// Whether `self` is not after `other`.
    pub fn le(&self, other: &Timestamp) -> (res: bool)
        ensures
            res == self.spec_le(*other),
    {
        self.secs < other.secs || (self.secs == other.secs && self.nanos <= other.nanos)
    }

    /// Whole seconds elapsed from `self` to `later` (negative when `later`
    /// comes first).
    pub fn seconds_until_exec(&self, later: &Timestamp) -> (res: i64)
        ensures
            res == self.seconds_until(*later),
    {
        proof {
            use_type_invariant(self);
            use_type_invariant(later);
        }
        seconds_between(later.secs, later.nanos, self.secs, self.nanos)
    }
}

impl Clone for Timestamp {
    fn clone(&self) -> (res: Self)
        ensures
            res == *self,
    {
        proof {
            use_type_invariant(self);
        }
        Timestamp { secs: self.secs, nanos: self.nanos }
    }
}

} // verus!
