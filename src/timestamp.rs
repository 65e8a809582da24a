//! The timestamp of a navigation record: a date field `ddmmyy` and a time
//! field `hhmmss`, read together as a naive date and time.
use vstd::prelude::*;
use chrono::{Datelike, Timelike};
use crate::number::{all_digits, is_digit};
use crate::text::{ascii_chars, lemma_ascii_text, string_from_utf8};

verus! {

/// A calendar date and a time of day, with no time zone.
#[derive(Clone, Copy, Debug, PartialEq, Eq, Structural)]
pub struct Timestamp {
    pub year: i32,
    pub month: u32,
    pub day: u32,
    pub hour: u32,
    pub minute: u32,
    pub second: u32,
}

/// chrono's parse error, which the timestamp reader turns into `None`.
#[verifier::external_type_specification]
#[verifier::external_body]
pub struct ExParseError(chrono::ParseError);

pub open spec fn is_leap_year(y: int) -> bool {
    y % 4 == 0 && (y % 100 != 0 || y % 400 == 0)
}

/// Number of days in month `m` (1 to 12) of year `y`, in the Gregorian calendar.
pub open spec fn days_in_month(y: int, m: int) -> int {
    if m == 2 {
        if is_leap_year(y) {
            29
        } else {
            28
        }
    } else if m == 4 || m == 6 || m == 9 || m == 11 {
        30
    } else {
        31
    }
}

/// Value of the two decimal digits of `s` at `i` and `i + 1`.
pub open spec fn two_digits(s: Seq<char>, i: int) -> int {
    10 * ((s[i] as u32) as int - 48) + ((s[i + 1] as u32) as int - 48)
}

/// What the format `%d%m%y%H%M%S` reads from twelve decimal digits: day,
/// month, year of the century (`00` to `69` in the 2000s, `70` to `99` in the
/// 1900s), hour, minute and second. A second of `60` is a leap second, which
/// reads as second `59`. The result is `None` where a value is out of range
/// or the day does not exist in that month.
pub open spec fn ddmmyyhhmmss(s: Seq<char>) -> Option<Timestamp> {
    let day = two_digits(s, 0);
    let month = two_digits(s, 2);
    let yy = two_digits(s, 4);
    let hour = two_digits(s, 6);
    let minute = two_digits(s, 8);
    let second = two_digits(s, 10);
    let year = if yy < 70 {
        2000 + yy
    } else {
        1900 + yy
    };
    if 1 <= month <= 12 && 1 <= day <= days_in_month(year, month) && hour <= 23 && minute <= 59
        && second <= 60 {
        Some(
            Timestamp {
                year: year as i32,
                month: month as u32,
                day: day as u32,
                hour: hour as u32,
                minute: minute as u32,
                second: (if second == 60 {
                    59
                } else {
                    second
                }) as u32,
            },
        )
    } else {
        None
    }
}

/// Relies on chrono's `NaiveDateTime::parse_from_str`, with the format
/// `%d%m%y%H%M%S` on twelve ASCII digits: each specifier reads two digits,
/// `%y` takes the century from its default rule, the date must exist, and a
/// leap second keeps `second()` at 59.
#[verifier::external_body]
fn naive_datetime_from_str(s: &str, fmt: &str) -> (r: Result<Timestamp, chrono::ParseError>)
    requires
        fmt@ == "%d%m%y%H%M%S"@,
        s@.len() == 12,
        forall|i: int| 0 <= i < 12 ==> '0' <= #[trigger] s@[i] <= '9',
    ensures
        match r {
            Ok(t) => ddmmyyhhmmss(s@) == Some(t),
            Err(_) => ddmmyyhhmmss(s@) is None,
        },
{
    match chrono::NaiveDateTime::parse_from_str(s, fmt) {
        Ok(t) => Ok(Timestamp {
            year: t.year(),
            month: t.month(),
            day: t.day(),
            hour: t.hour(),
            minute: t.minute(),
            second: t.second(),
        }),
        Err(e) => Err(e),
    }
}

/// The timestamp that a date field `ddmmyy` and a time field `hhmmss` write:
/// each must be six ASCII digits, and the twelve together must name an
/// existing date and time.
pub open spec fn timestamp_value(date: Seq<u8>, time: Seq<u8>) -> Option<Timestamp> {
    if date.len() == 6 && time.len() == 6 && all_digits(date) && all_digits(time) {
        ddmmyyhhmmss(ascii_chars(date + time))
    } else {
        None
    }
}

/// The timestamp written by the date field `buf[date_lo..date_hi]` and the
/// time field `buf[time_lo..time_hi]`.
pub fn parse_timestamp(buf: &[u8], date_lo: usize, date_hi: usize, time_lo: usize, time_hi: usize) -> (r:
    Option<Timestamp>)
    requires
        date_lo <= date_hi <= buf@.len(),
        time_lo <= time_hi <= buf@.len(),
    ensures
        r == timestamp_value(
            buf@.subrange(date_lo as int, date_hi as int),
            buf@.subrange(time_lo as int, time_hi as int),
        ),
{
    let ghost date = buf@.subrange(date_lo as int, date_hi as int);
    let ghost time = buf@.subrange(time_lo as int, time_hi as int);
    if date_hi - date_lo != 6 || time_hi - time_lo != 6 {
        return None;
    }
    let mut bytes: Vec<u8> = Vec::new();
    let mut i: usize = 0;
    while i < 12
        invariant
            0 <= i <= 12,
            date_hi == date_lo + 6 <= buf@.len(),
            time_hi == time_lo + 6 <= buf@.len(),
            date == buf@.subrange(date_lo as int, date_hi as int),
            time == buf@.subrange(time_lo as int, time_hi as int),
            bytes@ == (date + time).subrange(0, i as int),
            all_digits(bytes@),
        decreases 12 - i,
    {
        let c = if i < 6 {
            buf[date_lo + i]
        } else {
            buf[time_lo + (i - 6)]
        };
        assert(c == (date + time)[i as int]);
        if !(48 <= c && c <= 57) {
            assert(!all_digits(date) || !all_digits(time)) by {
                if i < 6 {
                    assert(date[i as int] == c);
                } else {
                    assert(time[i - 6] == c);
                }
            }
            return None;
        }
        bytes.push(c);
        i = i + 1;
        assert(bytes@ =~= (date + time).subrange(0, i as int));
    }
    assert(bytes@ =~= date + time);
    assert(all_digits(date) && all_digits(time)) by {
        assert forall|j: int| 0 <= j < 6 implies is_digit(#[trigger] date[j]) by {
            assert(date[j] == bytes@[j]);
        }
        assert forall|j: int| 0 <= j < 6 implies is_digit(#[trigger] time[j]) by {
            assert(time[j] == bytes@[j + 6]);
        }
    }
    let ghost b = bytes@;
    proof {
        lemma_ascii_text(b);
    }
    let text = match string_from_utf8(bytes) {
        Some(t) => t,
        None => {
            return None;
        },
    };
    assert(text@ == ascii_chars(b));
    assert forall|j: int| 0 <= j < 12 implies '0' <= #[trigger] text@[j] <= '9' by {
        assert(text@[j] == b[j] as char);
        assert(is_digit(b[j]));
    }
    match naive_datetime_from_str(text.as_str(), "%d%m%y%H%M%S") {
        Ok(t) => Some(t),
        Err(_) => None,
    }
}

} // verus!
