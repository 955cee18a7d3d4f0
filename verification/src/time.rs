//! Instants in UTC, their text forms, and what a wall clock at some offset shows for them.
use crate::text::{is_control, text_le};
use chrono::{DateTime, FixedOffset, Local, SecondsFormat, TimeZone};
use vstd::prelude::*;

verus! {

/// The instants that `chrono::DateTime<Utc>` can hold: years -262143 to 262142, and a
/// nanosecond part that may run over one second only within a leap second.
pub open spec fn is_instant(seconds: i64, nanos: u32) -> bool {
    &&& -8334601228800 <= seconds <= 8210266876799
    &&& nanos < 2_000_000_000
    &&& nanos >= 1_000_000_000 ==> seconds % 60 == 59
}

/// What `DateTime::to_rfc3339` writes for an instant in UTC.
pub uninterp spec fn rfc3339(seconds: i64, nanos: u32) -> Seq<char>;

/// What `DateTime::to_rfc3339_opts` with whole seconds and a `Z` writes for an instant in UTC.
pub uninterp spec fn rfc3339_seconds(seconds: i64, nanos: u32) -> Seq<char>;

/// What `DateTime::signed_duration_since` and `TimeDelta::num_seconds` give for two instants.
pub uninterp spec fn whole_seconds_between(
    later_seconds: i64,
    later_nanos: u32,
    seconds: i64,
    nanos: u32,
) -> i64;

/// What `DateTime::format` with `%Y-%m-%d` writes at an offset from UTC.
pub uninterp spec fn date_at_offset(seconds: i64, offset: i32) -> Seq<char>;

/// The characters of a time in RFC 3339.
pub open spec fn is_rfc3339_char(c: char) -> bool {
    ||| '0' <= c <= '9'
    ||| c == '-'
    ||| c == '+'
    ||| c == ':'
    ||| c == '.'
    ||| c == 'T'
    ||| c == 'Z'
}

/// The instant lies in a year that is written with four digits: 0000 to 9999.
pub open spec fn has_plain_year(seconds: i64) -> bool {
    -62167219200 <= seconds <= 253402300799
}

/// One instant comes no later than another.
pub open spec fn comes_first(seconds: i64, nanos: u32, later: i64, later_nanos: u32) -> bool {
    seconds < later || seconds == later && nanos <= later_nanos
}

/// A text is written for an instant of a plain year, and the texts of such instants are in
/// dictionary order exactly as the instants are in time.
pub open spec fn is_dated_text(text: Seq<char>, seconds: i64, nanos: u32) -> bool {
    has_plain_year(seconds) ==> forall|s: i64, n: u32|
        is_instant(s, n) && has_plain_year(s) ==> text_le(text, #[trigger] rfc3339(s, n))
            == comes_first(seconds, nanos, s, n)
}

/// A whole count of nanoseconds split into seconds, rounded towards zero.
pub open spec fn toward_zero_seconds(nanos: int) -> int {
    if nanos >= 0 {
        nanos / 1_000_000_000
    } else {
        -((-nanos) / 1_000_000_000)
    }
}

/// Calls `DateTime::from_timestamp` of the crate `chrono`: there is an instant exactly for the
/// seconds and nanoseconds that chrono can hold, and it has them unchanged.
#[verifier::external_body]
fn chrono_instant(seconds: i64, nanos: u32) -> (r: Option<(i64, u32)>)
    ensures
        r == if is_instant(seconds, nanos) {
            Some((seconds, nanos))
        } else {
            None
        },
{
    DateTime::from_timestamp(seconds, nanos).map(|t| (t.timestamp(), t.timestamp_subsec_nanos()))
}

/// Calls `DateTime::from_timestamp_millis` of the crate `chrono`: the seconds are the
/// milliseconds divided by a thousand and rounded down, the rest becomes nanoseconds.
#[verifier::external_body]
fn chrono_instant_of_millis(millis: i64) -> (r: Option<(i64, u32)>)
    ensures
        r == if -8334601228800 <= millis as int / 1000 <= 8210266876799 {
            Some(((millis as int / 1000) as i64, ((millis as int % 1000) * 1_000_000) as u32))
        } else {
            None
        },
{
    DateTime::from_timestamp_millis(millis).map(|t| (t.timestamp(), t.timestamp_subsec_nanos()))
}

/// Calls `DateTime::to_rfc3339` of the crate `chrono`. The text is named, not written out. Of two
/// instants in years of four digits the earlier has the text that comes first in a dictionary:
/// the parts stand from the year down with fixed widths, and a fraction of a second is left out
/// where it is zero, its digits being greater than the sign of the offset behind it.
#[verifier::external_body]
fn chrono_rfc3339(seconds: i64, nanos: u32) -> (r: String)
    requires
        is_instant(seconds, nanos),
    ensures
        r@ == rfc3339(seconds, nanos),
        is_dated_text(r@, seconds, nanos),
{
    DateTime::from_timestamp(seconds, nanos).unwrap().to_rfc3339()
}

/// Calls `DateTime::to_rfc3339_opts` of the crate `chrono` with `SecondsFormat::Secs` and a `Z`
/// for UTC. The text is named; it holds only digits, signs, colons and the letters T and Z.
#[verifier::external_body]
fn chrono_rfc3339_seconds(seconds: i64, nanos: u32) -> (r: String)
    requires
        is_instant(seconds, nanos),
    ensures
        r@ == rfc3339_seconds(seconds, nanos),
        forall|i: int| 0 <= i < r@.len() ==> is_rfc3339_char(#[trigger] r@[i]),
{
    let instant = DateTime::from_timestamp(seconds, nanos).unwrap();
    instant.to_rfc3339_opts(SecondsFormat::Secs, true)
}

/// Calls `DateTime::signed_duration_since` and `TimeDelta::num_seconds` of the crate `chrono`:
/// the difference in whole seconds, rounded towards zero. Where one of the instants lies within
/// a leap second the difference is only named.
#[verifier::external_body]
fn chrono_seconds_between(
    later_seconds: i64,
    later_nanos: u32,
    seconds: i64,
    nanos: u32,
) -> (r: i64)
    requires
        is_instant(later_seconds, later_nanos),
        is_instant(seconds, nanos),
    ensures
        r == whole_seconds_between(later_seconds, later_nanos, seconds, nanos),
        later_nanos < 1_000_000_000 && nanos < 1_000_000_000 ==> r == toward_zero_seconds(
            (later_seconds - seconds) * 1_000_000_000 + (later_nanos - nanos),
        ),
{
    let later = DateTime::from_timestamp(later_seconds, later_nanos).unwrap();
    let earlier = DateTime::from_timestamp(seconds, nanos).unwrap();
    later.signed_duration_since(earlier).num_seconds()
}

/// Calls `TimeZone::offset_from_utc_datetime` of `chrono::Local`: how many seconds the machine's
/// time zone is ahead of UTC at the instant, always less than a day either way. Which offset it
/// is depends on the machine, so nothing more is said. A machine whose zone is a day or more away
/// from UTC is one that chrono does not serve.
#[verifier::external_body]
fn chrono_local_offset(seconds: i64, nanos: u32) -> (r: i32)
    requires
        is_instant(seconds, nanos),
    ensures
        -86400 < r < 86400,
{
    let utc = DateTime::from_timestamp(seconds, nanos).unwrap().naive_utc();
    Local.offset_from_utc_datetime(&utc).local_minus_utc()
}

/// Calls `DateTime::format` of the crate `chrono` with `%Y-%m-%d` at a fixed offset. The date is
/// named; it holds only digits and signs.
#[verifier::external_body]
fn chrono_date(seconds: i64, nanos: u32, offset: i32) -> (r: String)
    requires
        is_instant(seconds, nanos),
        -86400 < offset < 86400,
    ensures
        r@ == date_at_offset(seconds, offset),
        forall|i: int| 0 <= i < r@.len() ==> is_rfc3339_char(#[trigger] r@[i]),
{
    let instant = DateTime::from_timestamp(seconds, nanos).unwrap();
    let zone = FixedOffset::east_opt(offset).unwrap();
    instant.with_timezone(&zone).format("%Y-%m-%d").to_string()
}

/// Calls `DateTime::format` of the crate `chrono` with `%H:%M` at a fixed offset: hours and
/// minutes since local midnight, two digits each.
#[verifier::external_body]
fn chrono_clock(seconds: i64, nanos: u32, offset: i32) -> (r: String)
    requires
        is_instant(seconds, nanos),
        -86400 < offset < 86400,
    ensures
        r@ == clock_face(seconds + offset),
{
    let instant = DateTime::from_timestamp(seconds, nanos).unwrap();
    let zone = FixedOffset::east_opt(offset).unwrap();
    instant.with_timezone(&zone).format("%H:%M").to_string()
}

/// A number below a hundred in two digits.
pub open spec fn two_digits(n: int) -> Seq<char> {
    seq![crate::digits::digit_char((n / 10) as nat), crate::digits::digit_char((n % 10) as nat)]
}

/// Hours and minutes of a wall clock that has run for `seconds` since a midnight.
pub open spec fn clock_face(seconds: int) -> Seq<char> {
    let since_midnight = seconds % 86400;
    two_digits(since_midnight / 3600) + seq![':'] + two_digits((since_midnight / 60) % 60)
}

/// The day that a wall clock shows which is `offset` seconds ahead of UTC.
pub open spec fn day_at_offset(seconds: i64, offset: i32) -> int {
    (seconds + offset) / 86400
}

/// An offset from UTC in seconds: less than a day either way.
pub open spec fn is_offset(offset: i32) -> bool {
    -86400 < offset < 86400
}

/// An instant in UTC, within the range of `chrono::DateTime<Utc>`.
#[derive(Debug, Clone, Copy, PartialEq, Eq, PartialOrd, Ord, Hash, Structural)]
pub struct Timestamp {
    seconds: i64,
    nanos: u32,
}

impl Timestamp {
    #[verifier::type_invariant]
    spec fn well_formed(self) -> bool {
        is_instant(self.seconds, self.nanos)
    }

    /// Seconds since 1970-01-01 00:00:00 UTC, rounded down.
    pub closed spec fn unix_seconds(self) -> i64 {
        self.seconds
    }

    /// Nanoseconds since the last whole second.
    pub closed spec fn sub_nanos(self) -> u32 {
        self.nanos
    }

    /// Comes no later than `other`.
    pub open spec fn at_or_before(self, other: Timestamp) -> bool {
        ||| self.unix_seconds() < other.unix_seconds()
        ||| self.unix_seconds() == other.unix_seconds() && self.sub_nanos() <= other.sub_nanos()
    }

    /// Whole seconds from `earlier` to `self`, rounded towards zero.
    pub open spec fn seconds_after(self, earlier: Timestamp) -> i64 {
        whole_seconds_between(
            self.unix_seconds(),
            self.sub_nanos(),
            earlier.unix_seconds(),
            earlier.sub_nanos(),
        )
    }

    /// The instant that lies the given seconds and nanoseconds after the start of 1970.
    pub fn from_unix(seconds: i64, nanos: u32) -> (r: Option<Timestamp>)
        ensures
            r is Some <==> is_instant(seconds, nanos),
            r is Some ==> r->0.unix_seconds() == seconds && r->0.sub_nanos() == nanos,
    {
        match chrono_instant(seconds, nanos) {
            Some((seconds, nanos)) => Some(Timestamp { seconds, nanos }),
            None => None,
        }
    }

    /// The instant that lies the given milliseconds after the start of 1970.
    pub fn from_unix_millis(millis: i64) -> (r: Option<Timestamp>)
        ensures
            r is Some <==> -8334601228800 <= millis as int / 1000 <= 8210266876799,
            r is Some ==> r->0.unix_seconds() == millis as int / 1000 && r->0.sub_nanos() == (
            millis as int % 1000) * 1_000_000,
    {
        match chrono_instant_of_millis(millis) {
            Some((seconds, nanos)) => Some(Timestamp { seconds, nanos }),
            None => None,
        }
    }

    /// Seconds since 1970-01-01 00:00:00 UTC, rounded down.
    pub fn timestamp(&self) -> (r: i64)
        ensures
            r == self.unix_seconds(),
    {
        self.seconds
    }

    /// Nanoseconds since the last whole second.
    pub fn timestamp_subsec_nanos(&self) -> (r: u32)
        ensures
            r == self.sub_nanos(),
    {
        self.nanos
    }

    /// Whether `self` comes no later than `other`.
    pub fn is_at_or_before(&self, other: &Timestamp) -> (r: bool)
        ensures
            r == self.at_or_before(*other),
    {
        self.seconds < other.seconds || (self.seconds == other.seconds && self.nanos
            <= other.nanos)
    }

    /// The instant in RFC 3339 with as many decimals as it needs.
    pub fn to_rfc3339(&self) -> (r: String)
        ensures
            r@ == rfc3339(self.unix_seconds(), self.sub_nanos()),
            is_instant(self.unix_seconds(), self.sub_nanos()),
            is_dated_text(r@, self.unix_seconds(), self.sub_nanos()),
    {
        proof {
            use_type_invariant(self);
        }
        chrono_rfc3339(self.seconds, self.nanos)
    }

    /// The instant in RFC 3339, cut to whole seconds, with `Z` for UTC.
    pub fn to_rfc3339_seconds(&self) -> (r: String)
        ensures
            r@ == rfc3339_seconds(self.unix_seconds(), self.sub_nanos()),
            forall|i: int| 0 <= i < r@.len() ==> is_rfc3339_char(#[trigger] r@[i]),
    {
        proof {
            use_type_invariant(self);
        }
        chrono_rfc3339_seconds(self.seconds, self.nanos)
    }

    /// Whole seconds from `earlier` to `self`, rounded towards zero.
    pub fn seconds_since(&self, earlier: &Timestamp) -> (r: i64)
        ensures
            r == self.seconds_after(*earlier),
            self.sub_nanos() < 1_000_000_000 && earlier.sub_nanos() < 1_000_000_000 ==> r
                == toward_zero_seconds(
                (self.unix_seconds() - earlier.unix_seconds()) * 1_000_000_000 + (self.sub_nanos()
                    - earlier.sub_nanos()),
            ),
    {
        proof {
            use_type_invariant(self);
            use_type_invariant(earlier);
        }
        chrono_seconds_between(self.seconds, self.nanos, earlier.seconds, earlier.nanos)
    }

    /// How many seconds the machine's time zone is ahead of UTC at this instant.
    pub fn local_offset(&self) -> (r: i32)
        ensures
            is_offset(r),
    {
        proof {
            use_type_invariant(self);
        }
        chrono_local_offset(self.seconds, self.nanos)
    }

    /// The day that a wall clock shows which is `offset` seconds ahead of UTC.
    pub fn local_day(&self, offset: i32) -> (r: i64)
        requires
            is_offset(offset),
        ensures
            r == day_at_offset(self.unix_seconds(), offset),
    {
        proof {
            use_type_invariant(self);
        }
        let local: i64 = self.seconds + offset as i64;
        if local >= 0 {
            local / 86400
        } else {
            -1 - (-1 - local) / 86400
        }
    }

    /// The date `YYYY-MM-DD` on a wall clock that is `offset` seconds ahead of UTC.
    pub fn local_date(&self, offset: i32) -> (r: String)
        requires
            is_offset(offset),
        ensures
            r@ == date_at_offset(self.unix_seconds(), offset),
            crate::text::control_free(r@),
    {
        proof {
            use_type_invariant(self);
        }
        let r: String = chrono_date(self.seconds, self.nanos, offset);
        assert forall|i: int| 0 <= i < r@.len() implies !is_control(#[trigger] r@[i]) by {
            assert(is_rfc3339_char(r@[i]));
        }
        r
    }

    /// The time `HH:MM` on a wall clock that is `offset` seconds ahead of UTC.
    pub fn local_clock(&self, offset: i32) -> (r: String)
        requires
            is_offset(offset),
        ensures
            r@ == clock_face(self.unix_seconds() + offset),
    {
        proof {
            use_type_invariant(self);
        }
        chrono_clock(self.seconds, self.nanos, offset)
    }
}

/// Of any two instants one comes no later than the other; instants that do so mutually are equal.
pub proof fn lemma_instants_ordered(a: Timestamp, b: Timestamp)
    ensures
        a.at_or_before(b) || b.at_or_before(a),
        a.at_or_before(b) && b.at_or_before(a) ==> a == b,
{
}

/// A wall clock shows two digits for the hour, a colon and two for the minute: together they are
/// the whole minutes since local midnight.
pub proof fn lemma_clock_shows_minutes_since_midnight(seconds: int)
    ensures
        ({
            let clock = clock_face(seconds);
            let hour = (clock[0] as int - 48) * 10 + (clock[1] as int - 48);
            let minute = (clock[3] as int - 48) * 10 + (clock[4] as int - 48);
            &&& clock.len() == 5
            &&& clock[2] == ':'
            &&& '0' <= clock[0] <= '9' && '0' <= clock[1] <= '9'
            &&& '0' <= clock[3] <= '9' && '0' <= clock[4] <= '9'
            &&& 0 <= hour < 24
            &&& 0 <= minute < 60
            &&& hour * 3600 + minute * 60 <= seconds % 86400 < hour * 3600 + minute * 60 + 60
        }),
{
    let rest = seconds % 86400;
    let h = rest / 3600;
    let m = (rest / 60) % 60;
    assert(0 <= h < 24 && 0 <= m < 60);
    assert(rest / 60 == h * 60 + m) by {
        assert(rest / 3600 == (rest / 60) / 60);
    }
}

/// The local day is the one whose twenty-four hours hold the local time.
pub proof fn lemma_day_holds_the_local_time(seconds: i64, offset: i32)
    ensures
        day_at_offset(seconds, offset) * 86400 <= seconds + offset < (day_at_offset(
            seconds,
            offset,
        ) + 1) * 86400,
{
}

/// Instants are in order as their seconds are, and within a second as their nanoseconds are.
pub proof fn lemma_order_of_instants(a: Timestamp, b: Timestamp)
    ensures
        a.unix_seconds() < b.unix_seconds() ==> a.at_or_before(b) && !b.at_or_before(a),
        a.unix_seconds() == b.unix_seconds() && a.sub_nanos() < b.sub_nanos() ==> a.at_or_before(b)
            && !b.at_or_before(a),
        a.unix_seconds() == b.unix_seconds() && a.sub_nanos() == b.sub_nanos() ==> a.at_or_before(b),
{
}

/// Nanoseconds are counted in whole seconds towards zero: what is left over is less than a second,
/// and a span and the same span backwards have as many seconds.
pub proof fn lemma_seconds_are_whole(nanos: int)
    ensures
        nanos >= 0 ==> toward_zero_seconds(nanos) * 1_000_000_000 <= nanos < (toward_zero_seconds(
            nanos,
        ) + 1) * 1_000_000_000,
        toward_zero_seconds(-nanos) == -toward_zero_seconds(nanos),
{
}

/// The texts of instants of plain years are in dictionary order as the instants are in time.
pub proof fn lemma_dated_texts_follow_time(
    text: Seq<char>,
    seconds: i64,
    nanos: u32,
    later: i64,
    later_nanos: u32,
)
    requires
        is_dated_text(text, seconds, nanos),
        has_plain_year(seconds),
        is_instant(later, later_nanos),
        has_plain_year(later),
    ensures
        seconds < later ==> text_le(text, rfc3339(later, later_nanos)),
        seconds > later ==> !text_le(text, rfc3339(later, later_nanos)),
        seconds == later ==> (text_le(text, rfc3339(later, later_nanos)) <==> nanos
            <= later_nanos),
{
}

} // verus!
