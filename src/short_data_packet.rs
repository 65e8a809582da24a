//! The navigation record: where and when a terminal was, and how it moved.
use vstd::prelude::*;
use crate::frame::FrameError;
use crate::login_packet::ranges_within;
use crate::number::{decimal_value, int_in, parse_decimal, parse_int, Decimal};
use crate::scan::pieces;
use crate::text::{gather, strs_bytes};
use crate::timestamp::{parse_timestamp, timestamp_value, Timestamp};

verus! {

/// The record of a frame of type `SD`.
///
/// `lon` is read from the coordinate with hemisphere `N`/`S` (the third and
/// fourth fields), `lat` from the one with hemisphere `E`/`W` (the fifth and
/// sixth fields).
#[derive(Clone, Copy, Debug, PartialEq, Eq, Structural)]
pub struct ShortDataPacket {
    pub timestamp: Timestamp,
    pub lat: Decimal,
    pub lon: Decimal,
    pub speed: i16,
    pub course: i16,
    pub height: i16,
    pub sats: i16,
}

/// A coordinate: the magnitude `degrees * 100 + minutes` divided by 100, and
/// negated where the hemisphere letter is `neg` rather than `pos`. Any other
/// hemisphere field is refused.
pub open spec fn coordinate_value(mag: Seq<u8>, hemi: Seq<u8>, pos: u8, neg: u8) -> Option<Decimal> {
    match decimal_value(mag) {
        Some(d) => if (hemi == seq![pos] || hemi == seq![neg]) && d.scale + 2 <= u32::MAX {
            Some(
                Decimal {
                    mantissa: (if hemi == seq![neg] {
                        -d.mantissa
                    } else {
                        d.mantissa as int
                    }) as i64,
                    scale: (d.scale + 2) as u32,
                },
            )
        } else {
            None
        },
        None => None,
    }
}

pub open spec fn i16_value(s: Seq<u8>) -> Option<int> {
    int_in(s, i16::MIN as int, i16::MAX as int)
}

/// The navigation values of the first ten fields of `f`: date, time,
/// coordinate with `N`/`S`, coordinate with `E`/`W`, speed, course, altitude
/// and satellite count.
pub open spec fn nav_value(f: Seq<Seq<u8>>) -> Option<ShortDataPacket>
    recommends
        f.len() >= 10,
{
    let timestamp = timestamp_value(f[0], f[1]);
    let lon = coordinate_value(f[2], f[3], 78, 83);
    let lat = coordinate_value(f[4], f[5], 69, 87);
    let speed = i16_value(f[6]);
    let course = i16_value(f[7]);
    let height = i16_value(f[8]);
    let sats = i16_value(f[9]);
    if timestamp is Some && lon is Some && lat is Some && speed is Some && course is Some
        && height is Some && sats is Some {
        Some(
            ShortDataPacket {
                timestamp: timestamp->Some_0,
                lat: lat->Some_0,
                lon: lon->Some_0,
                speed: speed->Some_0 as i16,
                course: course->Some_0 as i16,
                height: height->Some_0 as i16,
                sats: sats->Some_0 as i16,
            },
        )
    } else {
        None
    }
}

/// The navigation record that the fields `f` of a body write: exactly ten.
pub open spec fn short_data_value(f: Seq<Seq<u8>>) -> Result<ShortDataPacket, FrameError> {
    if f.len() != 10 {
        Err(FrameError::Malformed)
    } else {
        match nav_value(f) {
            Some(p) => Ok(p),
            None => Err(FrameError::FieldError),
        }
    }
}

fn parse_i16(buf: &[u8], lo: usize, hi: usize) -> (r: Option<i16>)
    requires
        lo <= hi <= buf@.len(),
    ensures
        match r {
            Some(v) => i16_value(buf@.subrange(lo as int, hi as int)) == Some(v as int),
            None => i16_value(buf@.subrange(lo as int, hi as int)) is None,
        },
{
    match parse_int(buf, lo, hi, -32768, 32767) {
        Some(v) => Some(v as i16),
        None => None,
    }
}

/// The coordinate with magnitude `buf[mag_lo..mag_hi]` and hemisphere field
/// `buf[hemi_lo..hemi_hi]`.
fn parse_coordinate(
    buf: &[u8],
    mag_lo: usize,
    mag_hi: usize,
    hemi_lo: usize,
    hemi_hi: usize,
    pos: u8,
    neg: u8,
) -> (r: Option<Decimal>)
    requires
        mag_lo <= mag_hi <= buf@.len(),
        hemi_lo <= hemi_hi <= buf@.len(),
        pos != neg,
    ensures
        r == coordinate_value(
            buf@.subrange(mag_lo as int, mag_hi as int),
            buf@.subrange(hemi_lo as int, hemi_hi as int),
            pos,
            neg,
        ),
{
    let ghost hemi = buf@.subrange(hemi_lo as int, hemi_hi as int);
    let d = match parse_decimal(buf, mag_lo, mag_hi) {
        Some(d) => d,
        None => {
            return None;
        },
    };
    if hemi_hi - hemi_lo != 1 {
        assert(hemi != seq![pos] && hemi != seq![neg]) by {
            assert(hemi.len() != 1);
        }
        return None;
    }
    let letter = buf[hemi_lo];
    assert(hemi =~= seq![letter]);
    if (letter != pos && letter != neg) || d.scale > 0xffff_fffd {
        assert(letter != pos ==> hemi != seq![pos]) by {
            if hemi == seq![pos] {
                assert(hemi[0] == pos);
            }
        }
        assert(letter != neg ==> hemi != seq![neg]) by {
            if hemi == seq![neg] {
                assert(hemi[0] == neg);
            }
        }
        return None;
    }
    assert(hemi == seq![neg] <==> letter == neg) by {
        if hemi == seq![neg] {
            assert(hemi[0] == neg);
        }
    }
    let mantissa = if letter == neg {
        -d.mantissa
    } else {
        d.mantissa
    };
    Some(Decimal { mantissa, scale: d.scale + 2 })
}

/// The navigation values of the first ten fields at `f` in `buf`.
pub(crate) fn nav_from_fields(buf: &[u8], f: &Vec<(usize, usize)>) -> (r: Option<ShortDataPacket>)
    requires
        ranges_within(buf@, f@),
        f@.len() >= 10,
    ensures
        r == nav_value(pieces(buf@, f@)),
{
    let ghost p = pieces(buf@, f@);
    let timestamp = parse_timestamp(buf, f[0].0, f[0].1, f[1].0, f[1].1);
    let lon = parse_coordinate(buf, f[2].0, f[2].1, f[3].0, f[3].1, 78, 83);
    let lat = parse_coordinate(buf, f[4].0, f[4].1, f[5].0, f[5].1, 69, 87);
    let speed = parse_i16(buf, f[6].0, f[6].1);
    let course = parse_i16(buf, f[7].0, f[7].1);
    let height = parse_i16(buf, f[8].0, f[8].1);
    let sats = parse_i16(buf, f[9].0, f[9].1);
    match (timestamp, lon, lat, speed, course, height, sats) {
        (Some(timestamp), Some(lon), Some(lat), Some(speed), Some(course), Some(height), Some(sats)) => {
            Some(ShortDataPacket { timestamp, lat, lon, speed, course, height, sats })
        },
        _ => None,
    }
}

/// The navigation record of the fields at `f` in `buf`.
pub(crate) fn short_data_from_fields(buf: &[u8], f: &Vec<(usize, usize)>) -> (r: Result<
    ShortDataPacket,
    FrameError,
>)
    requires
        ranges_within(buf@, f@),
    ensures
        r == short_data_value(pieces(buf@, f@)),
{
    if f.len() != 10 {
        return Err(FrameError::Malformed);
    }
    match nav_from_fields(buf, f) {
        Some(p) => Ok(p),
        None => Err(FrameError::FieldError),
    }
}

impl ShortDataPacket {
    /// The navigation record of the body fields `body`.
    pub fn from(body: Vec<&str>) -> (r: Result<ShortDataPacket, FrameError>)
        ensures
            r == short_data_value(strs_bytes(body@)),
    {
        let (buf, f) = gather(&body);
        short_data_from_fields(buf.as_slice(), &f)
    }
}

} // verus!
