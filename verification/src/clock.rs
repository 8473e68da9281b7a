//! Time since boot as hours, minutes and seconds, the time cell of a log row,
//! and the calendar timestamp that files on the card are stamped with.

use vstd::prelude::*;
use vstd::arithmetic::power::pow;
use crate::number::write_number;
use crate::number::ZERO_DIGIT;
use crate::number::lemma_pow10_zero;

verus! {

/// Seconds in an hour.
pub const SECONDS_PER_HOUR: u64 = 3600;

/// Seconds in a minute.
pub const SECONDS_PER_MINUTE: u64 = 60;

/// Separates hours, minutes and seconds in the time cell.
pub const CLOCK_SEPARATOR: u8 = 0x3a;

/// `v`, or the largest byte value where `v` does not fit in a byte.
pub open spec fn saturate_to_byte(v: int) -> int {
    if v > 255 { 255 } else { v }
}

/// Hours, minutes and seconds of a duration given in seconds: the whole
/// hours, then the whole minutes of what remains, then the seconds left
/// over. Below 256 hours these are `seconds / 3600`, `seconds % 3600 / 60`
/// and `seconds % 60` (see [`lemma_sec_to_time_exact`]); from 256 hours on
/// the hours stay at 255, and minutes and seconds count on from there, each
/// saturating at 255.
pub open spec fn spec_sec_to_time(seconds: u64) -> (u8, u8, u8) {
    let hours = saturate_to_byte(seconds as int / 3600);
    let after_hours = seconds - hours * 3600;
    let minutes = saturate_to_byte(after_hours / 60);
    let after_minutes = after_hours - minutes * 60;
    (hours as u8, minutes as u8, saturate_to_byte(after_minutes) as u8)
}

/// Splits a number of seconds into hours, minutes and seconds.
pub fn sec_to_time(seconds: u64) -> (r: (u8, u8, u8))
    ensures
        r == spec_sec_to_time(seconds),
{
    let whole_hours = seconds / SECONDS_PER_HOUR;
    let hours: u64 = if whole_hours > 255 { 255 } else { whole_hours };
    assert(hours * 3600 <= seconds) by (nonlinear_arith)
        requires
            hours <= seconds / 3600,
    ;
    let after_hours = seconds - hours * SECONDS_PER_HOUR;
    let whole_minutes = after_hours / SECONDS_PER_MINUTE;
    let minutes: u64 = if whole_minutes > 255 { 255 } else { whole_minutes };
    assert(minutes * 60 <= after_hours) by (nonlinear_arith)
        requires
            minutes <= after_hours / 60,
    ;
    let after_minutes = after_hours - minutes * SECONDS_PER_MINUTE;
    let secs: u64 = if after_minutes > 255 { 255 } else { after_minutes };
    (hours as u8, minutes as u8, secs as u8)
}

/// Below 256 hours nothing saturates: the hours are the whole hours, the
/// minutes and seconds are those of the last hour and minute, each under 60,
/// and together they add back up to the seconds given.
pub proof fn lemma_sec_to_time_exact(seconds: u64)
    requires
        seconds < 256 * 3600,
    ensures
        spec_sec_to_time(seconds).0 == seconds / 3600,
        spec_sec_to_time(seconds).1 == (seconds % 3600) / 60,
        spec_sec_to_time(seconds).2 == seconds % 60,
        spec_sec_to_time(seconds).1 < 60,
        spec_sec_to_time(seconds).2 < 60,
        spec_sec_to_time(seconds).0 * 3600 + spec_sec_to_time(seconds).1 * 60
            + spec_sec_to_time(seconds).2 == seconds,
{
    let s = seconds as int;
    assert(s / 3600 < 256) by (nonlinear_arith)
        requires
            0 <= s < 256 * 3600,
    ;
    assert(s - (s / 3600) * 3600 == s % 3600) by (nonlinear_arith)
        requires
            0 <= s,
    ;
    assert((s % 3600) / 60 < 60 && (s % 3600) - ((s % 3600) / 60) * 60 == s % 60) by (nonlinear_arith)
        requires
            0 <= s,
    ;
    assert((s / 3600) * 3600 + ((s % 3600) / 60) * 60 + s % 60 == s) by (nonlinear_arith)
        requires
            0 <= s,
    ;
}

/// Whether `a` comes no later than `b` as hours, then minutes, then seconds.
pub open spec fn clock_le(a: (u8, u8, u8), b: (u8, u8, u8)) -> bool {
    a.0 < b.0 || (a.0 == b.0 && (a.1 < b.1 || (a.1 == b.1 && a.2 <= b.2)))
}

/// Below 256 hours the split keeps the order of time: a later moment never
/// shows an earlier hour, minute and second.
pub proof fn lemma_sec_to_time_monotonic(first: u64, second: u64)
    requires
        first <= second < 256 * 3600,
    ensures
        clock_le(spec_sec_to_time(first), spec_sec_to_time(second)),
{
    lemma_sec_to_time_exact(first);
    lemma_sec_to_time_exact(second);
    let t1 = spec_sec_to_time(first);
    let t2 = spec_sec_to_time(second);
    let a = first as int;
    let b = second as int;
    assert(a / 3600 <= b / 3600) by (nonlinear_arith)
        requires
            0 <= a <= b,
    ;
    if t1.0 == t2.0 {
        assert(a % 3600 <= b % 3600) by (nonlinear_arith)
            requires
                0 <= a <= b,
                a / 3600 == b / 3600,
        ;
        assert((a % 3600) / 60 <= (b % 3600) / 60) by (nonlinear_arith)
            requires
                0 <= a % 3600 <= b % 3600,
        ;
        if t1.1 == t2.1 {
            assert(t1.0 * 3600 + t1.1 * 60 + t1.2 == a);
            assert(t2.0 * 3600 + t2.1 * 60 + t2.2 == b);
        }
    }
}

/// The ASCII digit of `v` at decimal place `place`.
pub open spec fn byte_digit(v: u8, place: nat) -> u8 {
    crate::number::digit_at(v as int, place)
}

/// The time cell of a log row for a moment `seconds` after boot: `hh:mm:ss`,
/// each field written with two digits by [`write_number`] (only the last two
/// digits of hours beyond 99).
pub open spec fn spec_time_buffer(seconds: u64) -> Seq<u8> {
    let t = spec_sec_to_time(seconds);
    seq![
        byte_digit(t.0, 1),
        byte_digit(t.0, 0),
        CLOCK_SEPARATOR,
        byte_digit(t.1, 1),
        byte_digit(t.1, 0),
        CLOCK_SEPARATOR,
        byte_digit(t.2, 1),
        byte_digit(t.2, 0),
    ]
}

/// Writes `value` into a fresh two-byte buffer with no decimal places.
fn two_digit_buffer(value: u8) -> (r: Vec<u8>)
    ensures
        r@ == seq![byte_digit(value, 1), byte_digit(value, 0)],
{
    let mut buf: Vec<u8> = vec![0, 0];
    write_number(&mut buf, 0, value);
    proof {
        let old_buf = seq![0u8, 0u8];
        assert(buf@ == crate::number::rendered_number(old_buf, 0, value));
        assert(crate::number::digit_places(old_buf, 2) == 0);
        assert(crate::number::digit_places(old_buf, 1) == 1);
    }
    assert(buf@ =~= seq![byte_digit(value, 1), byte_digit(value, 0)]);
    buf
}

/// The time cell of a log row for a moment `seconds` after boot.
pub fn time_buffer(seconds: u64) -> (r: [u8; 8])
    ensures
        r@ == spec_time_buffer(seconds),
{
    let clock_time = sec_to_time(seconds);
    let hr_buf = two_digit_buffer(clock_time.0);
    let min_buf = two_digit_buffer(clock_time.1);
    let sec_buf = two_digit_buffer(clock_time.2);
    let mut full_time: [u8; 8] = [0, 0, CLOCK_SEPARATOR, 0, 0, CLOCK_SEPARATOR, 0, 0];
    full_time[0] = hr_buf[0];
    full_time[1] = hr_buf[1];
    full_time[3] = min_buf[0];
    full_time[4] = min_buf[1];
    full_time[6] = sec_buf[0];
    full_time[7] = sec_buf[1];
    assert(full_time@ =~= spec_time_buffer(seconds));
    full_time
}

/// Below 100 hours the time cell reads `hh:mm:ss` of the exact split: the
/// tens and ones of the whole hours, of the minutes of the last hour and of
/// the seconds of the last minute.
pub proof fn lemma_time_buffer_reads_clock(seconds: u64)
    requires
        seconds < 100 * 3600,
    ensures
        spec_time_buffer(seconds) == seq![
            ((seconds / 3600) / 10 + ZERO_DIGIT) as u8,
            ((seconds / 3600) % 10 + ZERO_DIGIT) as u8,
            CLOCK_SEPARATOR,
            ((seconds % 3600 / 60) / 10 + ZERO_DIGIT) as u8,
            ((seconds % 3600 / 60) % 10 + ZERO_DIGIT) as u8,
            CLOCK_SEPARATOR,
            ((seconds % 60) / 10 + ZERO_DIGIT) as u8,
            ((seconds % 60) % 10 + ZERO_DIGIT) as u8,
        ],
{
    lemma_sec_to_time_exact(seconds);
    lemma_pow10_zero();
    crate::number::lemma_pow10_step(0);
    let h = seconds / 3600;
    assert(h < 100) by (nonlinear_arith)
        requires
            seconds < 100 * 3600,
            h == seconds / 3600,
    ;
    assert((h / 10) % 10 == h / 10);
    assert((seconds % 3600 / 60) / 10 % 10 == (seconds % 3600 / 60) / 10);
    assert((seconds % 60) / 10 % 10 == (seconds % 60) / 10);
}

/// Seconds since boot, from embassy-time's clock
/// (`embassy_time::Instant::now().as_secs()`). Nothing is stated of the
/// result: it is the time at which it is called.
#[verifier::external_body]
fn seconds_since_boot() -> u64 {
    embassy_time::Instant::now().as_secs()
}

/// The time cell of a log row for the present moment.
pub fn buf_time_now() -> (r: [u8; 8])
    ensures
        exists|seconds: u64| r@ == spec_time_buffer(seconds),
{
    let now = seconds_since_boot();
    time_buffer(now)
}

/// A calendar date and time as FAT file systems record it.
#[derive(PartialEq, Eq, Structural, Debug, Clone, Copy)]
pub struct Stamp {
    /// Add 1970 to get the calendar year.
    pub year_since_1970: u8,
    /// Add one to get the calendar month.
    pub zero_indexed_month: u8,
    /// Add one to get the day of the month.
    pub zero_indexed_day: u8,
    /// Hours past midnight.
    pub hours: u8,
    /// Minutes past the hour.
    pub minutes: u8,
    /// Seconds past the minute.
    pub seconds: u8,
}

/// Whether a calendar date and time is accepted: a year from 1970 to 2097, a
/// month from 1 to 12, a day from 1 to 31, and a time of day of at most
/// 23:59:59 (days are not checked against the month).
pub open spec fn calendar_valid(year: u16, month: u8, day: u8, hours: u8, minutes: u8, seconds: u8) -> bool {
    &&& 1970 <= year <= 2097
    &&& 1 <= month <= 12
    &&& 1 <= day <= 31
    &&& hours <= 23
    &&& minutes <= 59
    &&& seconds <= 59
}

/// The stamp of an accepted calendar date and time.
pub open spec fn calendar_stamp(year: u16, month: u8, day: u8, hours: u8, minutes: u8, seconds: u8) -> Stamp {
    Stamp {
        year_since_1970: (year - 1970) as u8,
        zero_indexed_month: (month - 1) as u8,
        zero_indexed_day: (day - 1) as u8,
        hours,
        minutes,
        seconds,
    }
}

/// The message naming the first field, in the order year, month, day, hours,
/// minutes, seconds, that is out of range.
pub open spec fn calendar_error(year: u16, month: u8, day: u8, hours: u8, minutes: u8, seconds: u8) -> Seq<char> {
    if !(1970 <= year <= 2097) {
        "Bad year"@
    } else if !(1 <= month <= 12) {
        "Bad month"@
    } else if !(1 <= day <= 31) {
        "Bad day"@
    } else if !(hours <= 23) {
        "Bad hours"@
    } else if !(minutes <= 59) {
        "Bad minutes"@
    } else {
        "Bad seconds"@
    }
}

/// `embedded_sdmmc::Timestamp::from_calendar`, with the timestamp's fields
/// moved into a [`Stamp`]. It succeeds exactly when every field is in range;
/// the stamp then counts years from 1970 and months and days from zero, and
/// otherwise the error names the first field out of range.
#[verifier::external_body]
fn from_calendar(year: u16, month: u8, day: u8, hours: u8, minutes: u8, seconds: u8) -> (r: Result<Stamp, &'static str>)
    ensures
        r is Ok <==> calendar_valid(year, month, day, hours, minutes, seconds),
        r matches Ok(t) ==> t == calendar_stamp(year, month, day, hours, minutes, seconds),
        r matches Err(e) ==> e@ == calendar_error(year, month, day, hours, minutes, seconds),
{
    match embedded_sdmmc::Timestamp::from_calendar(year, month, day, hours, minutes, seconds) {
        Ok(t) => Ok(Stamp {
            year_since_1970: t.year_since_1970,
            zero_indexed_month: t.zero_indexed_month,
            zero_indexed_day: t.zero_indexed_day,
            hours: t.hours,
            minutes: t.minutes,
            seconds: t.seconds,
        }),
        Err(e) => Err(e),
    }
}

/// The file timestamp for a moment `seconds` after boot: 19 September 2025
/// at the hours, minutes and seconds since boot, or, where those do not make
/// a time of day, 28 July 2025 at midnight.
pub open spec fn spec_timestamp_at(seconds: u64) -> Stamp {
    let t = spec_sec_to_time(seconds);
    if calendar_valid(2025, 9, 19, t.0, t.1, t.2) {
        calendar_stamp(2025, 9, 19, t.0, t.1, t.2)
    } else {
        calendar_stamp(2025, 7, 28, 0, 0, 0)
    }
}

/// For the first day after boot, files are stamped 19 September 2025 at the
/// time since boot; from then on they are stamped 28 July 2025 at midnight.
pub proof fn lemma_timestamp_follows_clock(seconds: u64)
    ensures
        seconds < 24 * 3600 ==> spec_timestamp_at(seconds) == calendar_stamp(
            2025,
            9,
            19,
            (seconds / 3600) as u8,
            ((seconds % 3600) / 60) as u8,
            (seconds % 60) as u8,
        ),
        seconds >= 24 * 3600 ==> spec_timestamp_at(seconds) == calendar_stamp(2025, 7, 28, 0, 0, 0),
{
    if seconds < 256 * 3600 {
        lemma_sec_to_time_exact(seconds);
        assert(seconds >= 24 * 3600 ==> seconds / 3600 >= 24);
    }
}

/// The clock that stamps the files written to the card.
pub struct RTCWrapper {
    _functional: bool,
}

impl RTCWrapper {
    /// Whether the clock is taken to be working.
    pub closed spec fn is_functional(&self) -> bool {
        self._functional
    }

    /// A clock taken to be working.
    pub fn new() -> (r: RTCWrapper)
        ensures
            r.is_functional(),
    {
        RTCWrapper { _functional: true }
    }

    /// The file timestamp for a moment `seconds` after boot.
    pub fn timestamp_at(&self, seconds: u64) -> (r: Stamp)
        ensures
            r == spec_timestamp_at(seconds),
    {
        let (hour, min, sec) = sec_to_time(seconds);
        match from_calendar(2025, 9, 19, hour, min, sec) {
            Ok(time_stamp) => time_stamp,
            Err(_) => {
                match from_calendar(2025, 7, 28, 0, 0, 0) {
                    Ok(fallback) => fallback,
                    Err(_) => {
                        proof {
                            assert(false);
                        }
                        Stamp {
                            year_since_1970: 0,
                            zero_indexed_month: 0,
                            zero_indexed_day: 0,
                            hours: 0,
                            minutes: 0,
                            seconds: 0,
                        }
                    },
                }
            },
        }
    }

    /// The file timestamp for the present moment.
    pub fn get_timestamp(&self) -> (r: Stamp)
        ensures
            exists|seconds: u64| r == spec_timestamp_at(seconds),
    {
        let now = seconds_since_boot();
        self.timestamp_at(now)
    }
}

} // verus!
