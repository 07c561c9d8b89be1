//! Points in time, and what `chrono` computes from them.

use vstd::prelude::*;

verus! {

/// First second of the range of instants: the start of the year -262143.
pub const MIN_SECS: i64 = -8_334_601_228_800;

/// Last second of the range of instants: the end of the year 262142.
pub const MAX_SECS: i64 = 8_210_266_876_799;

/// First second of the year 0.
pub const YEAR_ZERO_SECS: i64 = -62_167_219_200;

/// Last second of the year 9999.
pub const YEAR_9999_SECS: i64 = 253_402_300_799;

/// Format of the timestamp in a snapshot's name.
pub const TIMESTAMP_FMT: &'static str = "%Y-%m-%dT%H:%M:%SZ";

/// An instant in UTC: seconds since the start of 1970, and nanoseconds since
/// that second began. A leap second is written as the second before it with
/// 1_000_000_000 nanoseconds or more.
#[derive(Clone, Copy, Debug, PartialEq, Eq, PartialOrd, Ord, Hash, Structural)]
pub struct Timestamp {
    pub secs: i64,
    pub nanos: u32,
}

impl Timestamp {
    /// Whether the parts stand for an instant.
    pub open spec fn valid(self) -> bool {
        &&& MIN_SECS <= self.secs <= MAX_SECS
        &&& self.nanos < 2_000_000_000
        &&& self.nanos >= 1_000_000_000 ==> (self.secs as int) % 60 == 59
    }

    /// Whether the instant lies in a leap second.
    pub open spec fn leap(self) -> bool {
        self.nanos >= 1_000_000_000
    }

    /// Whether the year is written with four digits.
    pub open spec fn four_digit_year(self) -> bool {
        YEAR_ZERO_SECS <= self.secs <= YEAR_9999_SECS
    }

    /// The instant, without its fraction of a second.
    pub open spec fn whole_second(self) -> Timestamp {
        Timestamp {
            secs: self.secs,
            nanos: if self.leap() {
                1_000_000_000
            } else {
                0
            },
        }
    }

    /// Earlier than `other`.
    pub open spec fn before(self, other: Timestamp) -> bool {
        self.secs < other.secs || (self.secs == other.secs && self.nanos < other.nanos)
    }

    /// The instant with these parts, where they stand for one.
    pub fn new(secs: i64, nanos: u32) -> (r: Option<Timestamp>)
        ensures
            match r {
                Some(t) => t.secs == secs && t.nanos == nanos && t.valid(),
                None => !(Timestamp { secs, nanos }).valid(),
            },
    {
        if secs < MIN_SECS || secs > MAX_SECS || nanos >= 2_000_000_000 {
            return None;
        }
        if nanos >= 1_000_000_000 {
            // Shifted by a whole number of minutes to where `%` is the modulus.
            let shifted: i64 = secs + 8_400_000_000_000;
            if shifted % 60 != 59 {
                return None;
            }
        }
        Some(Timestamp { secs, nanos })
    }

    /// Whether this instant is earlier than `other`.
    pub fn is_before(&self, other: &Timestamp) -> (r: bool)
        ensures
            r == self.before(*other),
    {
        self.secs < other.secs || (self.secs == other.secs && self.nanos < other.nanos)
    }
}

// ---------------------------------------------------------------------------
// Text
// ---------------------------------------------------------------------------

/// What `chrono::DateTime::parse_from_rfc3339` reads in a text: seconds and
/// nanoseconds in UTC, or nothing where it fails.
pub uninterp spec fn rfc3339_instant(text: Seq<char>) -> Option<(i64, u32)>;

/// `chrono::DateTime::parse_from_rfc3339`, the result moved to UTC. What it
/// reads is a function of the text; it reads an instant that chrono can hold;
/// and a text with an `@` in it is never read.
#[verifier::external_body]
pub(crate) fn parse_rfc3339(text: &str) -> (r: Option<Timestamp>)
    ensures
        match r {
            Some(t) => rfc3339_instant(text@) == Some((t.secs, t.nanos)),
            None => rfc3339_instant(text@) is None,
        },
        r is Some ==> r->0.valid(),
        r is Some ==> !text@.contains('@'),
{
    let dt = chrono::DateTime::parse_from_rfc3339(text).ok()?.to_utc();
    Some(Timestamp { secs: dt.timestamp(), nanos: dt.timestamp_subsec_nanos() })
}

/// What `chrono::DateTime::format` writes for a UTC instant under a format.
pub uninterp spec fn formatted_instant(secs: i64, nanos: u32, fmt: Seq<char>) -> Seq<char>;

/// `chrono::DateTime::format` under the format of snapshot names. The text is a
/// function of the instant and the format, and for a year from 0 to 9999 it
/// reads back, as RFC 3339, as the instant without its fraction of a second.
#[verifier::external_body]
pub(crate) fn format_utc(t: Timestamp, fmt: &str) -> (r: String)
    requires
        t.valid(),
        fmt@ == TIMESTAMP_FMT@,
    ensures
        r@ == formatted_instant(t.secs, t.nanos, fmt@),
        t.four_digit_year() ==> rfc3339_instant(r@) == Some(
            (t.secs, t.whole_second().nanos),
        ),
{
    let dt = chrono::DateTime::from_timestamp(t.secs, t.nanos).unwrap();
    dt.format(fmt).to_string()
}

/// What `chrono::DateTime::to_rfc3339` writes for a UTC instant.
pub uninterp spec fn rfc3339_text(secs: i64, nanos: u32) -> Seq<char>;

/// `chrono::DateTime::to_rfc3339` of a UTC instant. The text is a function of
/// the instant, it is never a single character, and for a year from 0 to 9999 it
/// reads back as that instant.
#[verifier::external_body]
pub(crate) fn to_rfc3339(t: Timestamp) -> (r: String)
    requires
        t.valid(),
    ensures
        r@ == rfc3339_text(t.secs, t.nanos),
        r@.len() > 1,
        t.four_digit_year() ==> rfc3339_instant(r@) == Some((t.secs, t.nanos)),
{
    chrono::DateTime::from_timestamp(t.secs, t.nanos).unwrap().to_rfc3339()
}

// ---------------------------------------------------------------------------
// Calendar
// ---------------------------------------------------------------------------

/// What `chrono::Datelike::year` gives for the UTC date of a second.
pub uninterp spec fn calendar_year(secs: i64) -> i32;

/// `chrono::Datelike::year` of a UTC instant: a function of its second.
#[verifier::external_body]
pub(crate) fn year_of(t: Timestamp) -> (r: i32)
    requires
        t.valid(),
    ensures
        r == calendar_year(t.secs),
{
    chrono::Datelike::year(&chrono::DateTime::from_timestamp(t.secs, t.nanos).unwrap())
}

/// What `chrono::Datelike::month` gives for the UTC date of a second.
pub uninterp spec fn calendar_month(secs: i64) -> u32;

/// `chrono::Datelike::month` of a UTC instant: a function of its second.
#[verifier::external_body]
pub(crate) fn month_of(t: Timestamp) -> (r: u32)
    requires
        t.valid(),
    ensures
        r == calendar_month(t.secs),
{
    chrono::Datelike::month(&chrono::DateTime::from_timestamp(t.secs, t.nanos).unwrap())
}

/// What `chrono::Datelike::iso_week` gives for the UTC date of a second: the
/// ISO week-numbering year and the week in it.
pub uninterp spec fn iso_week(secs: i64) -> (i32, u32);

/// `chrono::Datelike::iso_week` of a UTC instant: a function of its second.
#[verifier::external_body]
pub(crate) fn iso_week_of(t: Timestamp) -> (r: (i32, u32))
    requires
        t.valid(),
    ensures
        r == iso_week(t.secs),
{
    let dt = chrono::DateTime::from_timestamp(t.secs, t.nanos).unwrap();
    let week = chrono::Datelike::iso_week(&dt);
    (week.year(), week.week())
}

// ---------------------------------------------------------------------------
// Arithmetic
// ---------------------------------------------------------------------------

/// `days` days before `t`, of 86400 seconds each. Leaving a leap second, the
/// instant counts as one of the second after it on the way back, and as one of
/// the second before it on the way forth.
pub open spec fn days_before(t: Timestamp, days: int) -> (int, int) {
    if !t.leap() || days == 0 {
        (t.secs - 86_400 * days, t.nanos as int)
    } else if days > 0 {
        (t.secs + 1 - 86_400 * days, t.nanos - 1_000_000_000)
    } else {
        (t.secs - 86_400 * days, t.nanos - 1_000_000_000)
    }
}

/// Whether the instant `days` days before `t` is one chrono can hold.
pub open spec fn can_go_back(t: Timestamp, days: int) -> bool {
    MIN_SECS <= t.secs - 86_400 * days <= MAX_SECS
}

/// Whether the instant `days` days before `t` is one chrono can hold.
pub fn reachable(t: Timestamp, days: i64) -> (r: bool)
    ensures
        r == can_go_back(t, days as int),
{
    let secs: i128 = t.secs as i128 - 86_400 * days as i128;
    MIN_SECS as i128 <= secs && secs <= MAX_SECS as i128
}

/// Subtraction of `chrono::TimeDelta::days` from a UTC instant: as many times
/// 86400 seconds earlier as `days` says.
#[verifier::external_body]
pub(crate) fn minus_days(t: Timestamp, days: i64) -> (r: Timestamp)
    requires
        t.valid(),
        can_go_back(t, days as int),
    ensures
        (r.secs as int, r.nanos as int) == days_before(t, days as int),
        r.valid(),
{
    let dt = chrono::DateTime::from_timestamp(t.secs, t.nanos).unwrap();
    let dt = dt - chrono::TimeDelta::days(days);
    Timestamp { secs: dt.timestamp(), nanos: dt.timestamp_subsec_nanos() }
}

/// Nanoseconds from `since` to `t`. A leap second counts where one of the two
/// lies in it and the other later in the day.
pub open spec fn nanos_between(t: Timestamp, since: Timestamp) -> int {
    let plain = (t.secs - since.secs) * 1_000_000_000 + t.nanos - since.nanos;
    let of_day = (t.secs as int) % 86_400;
    let since_of_day = (since.secs as int) % 86_400;
    if of_day > since_of_day && since.leap() {
        plain + 1_000_000_000
    } else if of_day < since_of_day && t.leap() {
        plain - 1_000_000_000
    } else {
        plain
    }
}

/// `chrono::DateTime::signed_duration_since` of two UTC instants, as whole
/// seconds and the nanoseconds left over: together, the nanoseconds between.
#[verifier::external_body]
pub(crate) fn elapsed_since(t: Timestamp, since: Timestamp) -> (r: (i64, i32))
    requires
        t.valid(),
        since.valid(),
    ensures
        r.0 * 1_000_000_000 + r.1 == nanos_between(t, since),
{
    let to = chrono::DateTime::from_timestamp(t.secs, t.nanos).unwrap();
    let from = chrono::DateTime::from_timestamp(since.secs, since.nanos).unwrap();
    let delta = to.signed_duration_since(from);
    (delta.num_seconds(), delta.subsec_nanos())
}

/// Whether at least `days` days lie between `since` and `t`.
pub fn days_have_passed(t: Timestamp, since: Timestamp, days: u32) -> (r: bool)
    requires
        t.valid(),
        since.valid(),
    ensures
        r == (nanos_between(t, since) >= days * 86_400_000_000_000),
{
    let (secs, nanos) = elapsed_since(t, since);
    let gone: i128 = secs as i128 * 1_000_000_000 + nanos as i128;
    gone >= days as i128 * 86_400_000_000_000
}

} // verus!
