//! Integer and decimal fields written in ASCII.
use vstd::prelude::*;
use crate::scan::{find_byte, first_index};

verus! {

pub open spec fn is_digit(c: u8) -> bool {
    48 <= c <= 57
}

pub open spec fn all_digits(s: Seq<u8>) -> bool {
    forall|i: int| 0 <= i < s.len() ==> is_digit(#[trigger] s[i])
}

/// The number that a string of ASCII digits writes in base ten.
pub open spec fn digits_value(s: Seq<u8>) -> nat
    decreases s.len(),
{
    if s.len() == 0 {
        0
    } else {
        10 * digits_value(s.drop_last()) + (s.last() - 48) as nat
    }
}

/// An optional leading `-` or `+`: whether the value is negated, and what follows the sign.
pub open spec fn sign_split(s: Seq<u8>) -> (bool, Seq<u8>) {
    if s.len() > 0 && s[0] == 45 {
        (true, s.drop_first())
    } else if s.len() > 0 && s[0] == 43 {
        (false, s.drop_first())
    } else {
        (false, s)
    }
}

/// The integer that `s` writes: an optional sign, then one or more digits.
pub open spec fn int_value(s: Seq<u8>) -> Option<int> {
    let (neg, d) = sign_split(s);
    if d.len() > 0 && all_digits(d) {
        Some(
            if neg {
                -digits_value(d)
            } else {
                digits_value(d) as int
            },
        )
    } else {
        None
    }
}

/// The integer that `s` writes, where it lies in `[min, max]`.
pub open spec fn int_in(s: Seq<u8>, min: int, max: int) -> Option<int> {
    match int_value(s) {
        Some(v) => if min <= v <= max {
            Some(v)
        } else {
            None
        },
        None => None,
    }
}

/// A number written in decimal: `mantissa / 10^scale`.
#[derive(Clone, Copy, Debug, PartialEq, Eq, Structural)]
pub struct Decimal {
    pub mantissa: i64,
    pub scale: u32,
}

/// The largest magnitude that a decimal's digits may write.
pub const MANTISSA_MAX: i64 = 99_999_999_999_999_999;

/// The digits before and after the first `.` of `d`; without a `.`, all of
/// `d` and nothing.
pub open spec fn point_split(d: Seq<u8>) -> (Seq<u8>, Seq<u8>) {
    match first_index(d, 46) {
        Some(p) => (d.subrange(0, p), d.subrange(p + 1, d.len() as int)),
        None => (d, Seq::empty()),
    }
}

/// The decimal that `s` writes without an exponent: an optional sign,
/// digits, and optionally a `.` and more digits, with at least one digit in
/// all. The digits, read together, give the mantissa; those after the point
/// give the scale.
pub open spec fn plain_decimal_value(s: Seq<u8>) -> Option<Decimal> {
    let (neg, d) = sign_split(s);
    let (whole, frac) = point_split(d);
    let m = digits_value(whole + frac);
    if all_digits(whole) && all_digits(frac) && whole.len() + frac.len() >= 1 && m
        <= MANTISSA_MAX && frac.len() <= u32::MAX {
        Some(
            Decimal {
                mantissa: (if neg {
                    -m
                } else {
                    m as int
                }) as i64,
                scale: frac.len() as u32,
            },
        )
    } else {
        None
    }
}

/// Appending a digit never makes the value smaller.
proof fn lemma_digits_prefix(s: Seq<u8>, k: int)
    requires
        0 <= k <= s.len(),
        all_digits(s),
    ensures
        digits_value(s.subrange(0, k)) <= digits_value(s),
    decreases s.len() - k,
{
    if k == s.len() {
        assert(s.subrange(0, k) =~= s);
    } else {
        lemma_digits_prefix(s, k + 1);
        let a = s.subrange(0, k + 1);
        assert(a.drop_last() =~= s.subrange(0, k));
        assert(a.last() == s[k]);
        assert(is_digit(s[k]));
    }
}

/// One more digit at the end of a digit string.
proof fn lemma_digits_push(s: Seq<u8>, c: u8)
    ensures
        digits_value(s.push(c)) == 10 * digits_value(s) + (c - 48) as nat,
{
    assert(s.push(c).drop_last() =~= s);
}

/// Whether `buf[lo..hi]` starts with `-`, and where its digits start.
fn sign_prefix(buf: &[u8], lo: usize, hi: usize) -> (r: (bool, usize))
    requires
        lo <= hi <= buf@.len(),
    ensures
        lo <= r.1 <= hi,
        sign_split(buf@.subrange(lo as int, hi as int)) == (r.0, buf@.subrange(r.1 as int, hi as int)),
{
    let ghost s = buf@.subrange(lo as int, hi as int);
    if lo < hi && (buf[lo] == 45 || buf[lo] == 43) {
        assert(s.drop_first() =~= buf@.subrange(lo + 1, hi as int));
        (buf[lo] == 45, lo + 1)
    } else {
        assert(s =~= buf@.subrange(lo as int, hi as int));
        (false, lo)
    }
}

/// The integer in `buf[lo..hi]` where it lies in `[min, max]`.
pub fn parse_int(buf: &[u8], lo: usize, hi: usize, min: i64, max: i64) -> (r: Option<i64>)
    requires
        lo <= hi <= buf@.len(),
        -0x1_0000_0000_0000 <= min <= 0 <= max <= 0x1_0000_0000_0000,
    ensures
        match r {
            Some(v) => int_in(buf@.subrange(lo as int, hi as int), min as int, max as int) == Some(
                v as int,
            ),
            None => int_in(buf@.subrange(lo as int, hi as int), min as int, max as int) is None,
        },
{
    let ghost s = buf@.subrange(lo as int, hi as int);
    let (neg, start) = sign_prefix(buf, lo, hi);
    let ghost d = buf@.subrange(start as int, hi as int);
    if start == hi {
        return None;
    }
    let bound: i64 = if neg {
        -min
    } else {
        max
    };
    let mut acc: i64 = 0;
    let mut i: usize = start;
    while i < hi
        invariant
            start <= i <= hi <= buf@.len(),
            d == buf@.subrange(start as int, hi as int),
            s == buf@.subrange(lo as int, hi as int),
            sign_split(s) == (neg, d),
            bound == (if neg {
                -min
            } else {
                max as int
            }),
            all_digits(buf@.subrange(start as int, i as int)),
            acc as int == digits_value(buf@.subrange(start as int, i as int)),
            0 <= acc <= bound,
            bound <= 0x1_0000_0000_0000,
        decreases hi - i,
    {
        let c = buf[i];
        if !(48 <= c && c <= 57) {
            assert(d[i - start] == c);
            return None;
        }
        proof {
            lemma_digits_push(buf@.subrange(start as int, i as int), c);
            assert(buf@.subrange(start as int, i as int).push(c) =~= buf@.subrange(
                start as int,
                i + 1,
            ));
        }
        acc = acc * 10 + (c - 48) as i64;
        i = i + 1;
        if acc > bound {
            proof {
                if all_digits(d) {
                    lemma_digits_prefix(d, i - start);
                    assert(d.subrange(0, i - start) =~= buf@.subrange(start as int, i as int));
                    assert(digits_value(d) > bound);
                }
            }
            return None;
        }
    }
    assert(d =~= buf@.subrange(start as int, i as int));
    if neg {
        Some(-acc)
    } else {
        Some(acc)
    }
}

/// Reads the digits of `buf[lo..hi]` after those of `prefix`, whose value
/// `acc` already holds, while the value stays within `MANTISSA_MAX`.
fn more_digits(buf: &[u8], lo: usize, hi: usize, acc: i64, Ghost(prefix): Ghost<Seq<u8>>) -> (r:
    Option<i64>)
    requires
        lo <= hi <= buf@.len(),
        all_digits(prefix),
        acc as int == digits_value(prefix),
        acc <= MANTISSA_MAX,
    ensures
        ({
            let all = prefix + buf@.subrange(lo as int, hi as int);
            match r {
                Some(v) => all_digits(all) && v as int == digits_value(all) && v <= MANTISSA_MAX,
                None => !(all_digits(all) && digits_value(all) <= MANTISSA_MAX),
            }
        }),
{
    let ghost all = prefix + buf@.subrange(lo as int, hi as int);
    let mut acc = acc;
    let mut i: usize = lo;
    while i < hi
        invariant
            lo <= i <= hi <= buf@.len(),
            all == prefix + buf@.subrange(lo as int, hi as int),
            all_digits(prefix + buf@.subrange(lo as int, i as int)),
            acc as int == digits_value(prefix + buf@.subrange(lo as int, i as int)),
            0 <= acc <= MANTISSA_MAX,
        decreases hi - i,
    {
        let ghost done = prefix + buf@.subrange(lo as int, i as int);
        let c = buf[i];
        if !(48 <= c && c <= 57) {
            assert(all[done.len() as int] == c);
            return None;
        }
        proof {
            lemma_digits_push(done, c);
            assert(done.push(c) =~= prefix + buf@.subrange(lo as int, i + 1));
        }
        acc = acc * 10 + (c - 48) as i64;
        i = i + 1;
        if acc > MANTISSA_MAX {
            proof {
                if all_digits(all) {
                    lemma_digits_prefix(all, done.len() as int + 1);
                    assert(all.subrange(0, done.len() as int + 1) =~= prefix + buf@.subrange(
                        lo as int,
                        i as int,
                    ));
                }
            }
            return None;
        }
    }
    assert(all =~= prefix + buf@.subrange(lo as int, i as int));
    Some(acc)
}

/// The decimal written in `buf[lo..hi]`, without an exponent.
fn parse_plain_decimal(buf: &[u8], lo: usize, hi: usize) -> (r: Option<Decimal>)
    requires
        lo <= hi <= buf@.len(),
    ensures
        r == plain_decimal_value(buf@.subrange(lo as int, hi as int)),
        r matches Some(d) ==> -MANTISSA_MAX <= d.mantissa <= MANTISSA_MAX,
{
    let ghost s = buf@.subrange(lo as int, hi as int);
    let (neg, start) = sign_prefix(buf, lo, hi);
    let ghost d = buf@.subrange(start as int, hi as int);
    let dot = find_byte(buf, start, hi, 46);
    let (whole_hi, frac_lo) = match dot {
        Some(p) => (p, p + 1),
        None => (hi, hi),
    };
    let ghost whole = buf@.subrange(start as int, whole_hi as int);
    let ghost frac = buf@.subrange(frac_lo as int, hi as int);
    proof {
        crate::scan::lemma_first_index(d, 46);
        if let Some(p) = dot {
            assert(first_index(d, 46) == Some(p - start));
            assert(d.subrange(0, p - start) =~= whole);
            assert(d.subrange(p - start + 1, d.len() as int) =~= frac);
        } else {
            assert(d =~= whole);
            assert(frac =~= Seq::<u8>::empty());
        }
    }
    assert(point_split(d) == (whole, frac));
    let first = more_digits(buf, start, whole_hi, 0, Ghost(Seq::empty()));
    assert(Seq::<u8>::empty() + whole =~= whole);
    let m = match first {
        Some(v) => v,
        None => {
            proof {
                if all_digits(whole) && all_digits(frac) {
                    assert(all_digits(whole + frac));
                    lemma_digits_prefix(whole + frac, whole.len() as int);
                    assert((whole + frac).subrange(0, whole.len() as int) =~= whole);
                }
            }
            return None;
        },
    };
    let m = match more_digits(buf, frac_lo, hi, m, Ghost(whole)) {
        Some(v) => v,
        None => {
            return None;
        },
    };
    if whole_hi - start + (hi - frac_lo) == 0 || hi - frac_lo > 0xffff_ffff {
        return None;
    }
    let scale = (hi - frac_lo) as u32;
    proof {
        assert(all_digits(whole));
        assert forall|i: int| 0 <= i < frac.len() implies is_digit(#[trigger] frac[i]) by {
            assert(frac[i] == (whole + frac)[whole.len() + i]);
        }
        assert(m as int == digits_value(whole + frac));
        assert(scale as int == frac.len());
        assert(whole.len() + frac.len() >= 1);
    }
    if neg {
        Some(Decimal { mantissa: -m, scale })
    } else {
        Some(Decimal { mantissa: m, scale })
    }
}

pub open spec fn pow10(n: nat) -> int
    decreases n,
{
    if n == 0 {
        1
    } else {
        10 * pow10((n - 1) as nat)
    }
}

proof fn lemma_pow10_add(a: nat, b: nat)
    ensures
        pow10(a + b) == pow10(a) * pow10(b),
        pow10(a) >= 1,
    decreases a,
{
    if a > 0 {
        lemma_pow10_add((a - 1) as nat, b);
        let x = pow10((a - 1) as nat);
        let y = pow10(b);
        assert(10 * (x * y) == (10 * x) * y) by (nonlinear_arith);
        assert((a - 1) as nat + b == (a + b - 1) as nat);
    }
}

/// Position of the first `e` or `E` in `s`.
pub open spec fn exp_index(s: Seq<u8>) -> Option<int> {
    match (first_index(s, 101), first_index(s, 69)) {
        (Some(a), Some(b)) => Some(if a < b { a } else { b }),
        (Some(a), None) => Some(a),
        (None, Some(b)) => Some(b),
        (None, None) => None,
    }
}

/// `d` times `10^k`, where the result still fits a decimal.
pub open spec fn shift_decimal(d: Decimal, k: int) -> Option<Decimal> {
    if k <= d.scale {
        if d.scale - k <= u32::MAX {
            Some(Decimal { mantissa: d.mantissa, scale: (d.scale - k) as u32 })
        } else {
            None
        }
    } else {
        let m = d.mantissa * pow10((k - d.scale) as nat);
        if -MANTISSA_MAX <= m <= MANTISSA_MAX {
            Some(Decimal { mantissa: m as i64, scale: 0 })
        } else {
            None
        }
    }
}

/// The decimal that `s` writes: a decimal without exponent, optionally
/// followed by `e` or `E` and an integer exponent between -9999 and 9999.
pub open spec fn decimal_value(s: Seq<u8>) -> Option<Decimal> {
    match exp_index(s) {
        None => plain_decimal_value(s),
        Some(p) => match (
            plain_decimal_value(s.subrange(0, p)),
            int_in(s.subrange(p + 1, s.len() as int), -9999, 9999),
        ) {
            (Some(d), Some(k)) => shift_decimal(d, k),
            _ => None,
        },
    }
}

fn shift(d: Decimal, k: i64) -> (r: Option<Decimal>)
    requires
        -9999 <= k <= 9999,
        -MANTISSA_MAX <= d.mantissa <= MANTISSA_MAX,
    ensures
        r == shift_decimal(d, k as int),
{
    if k <= d.scale as i64 {
        let s = d.scale as i64 - k;
        if s > 0xffff_ffff {
            return None;
        }
        return Some(Decimal { mantissa: d.mantissa, scale: s as u32 });
    }
    let e: i64 = k - d.scale as i64;
    let mut m: i64 = d.mantissa;
    let mut i: i64 = 0;
    assert(pow10(0) == 1);
    while i < e
        invariant
            0 <= i <= e <= 9999,
            e == k - d.scale,
            m as int == d.mantissa * pow10(i as nat),
            -MANTISSA_MAX <= m <= MANTISSA_MAX,
        decreases e - i,
    {
        if m > MANTISSA_MAX / 10 || m < -(MANTISSA_MAX / 10) {
            proof {
                let rest = (e - i) as nat;
                lemma_pow10_add(i as nat, rest);
                lemma_pow10_add((rest - 1) as nat, 0);
                let q = pow10(rest);
                assert(q == 10 * pow10((rest - 1) as nat));
                assert(q >= 10);
                assert(d.mantissa * pow10((k - d.scale) as nat) == d.mantissa * (pow10(i as nat)
                    * q)) by {
                    assert((k - d.scale) as nat == i as nat + rest);
                }
                let mi = m as int;
                assert(d.mantissa * (pow10(i as nat) * q) == mi * q) by (nonlinear_arith)
                    requires
                        mi == d.mantissa * pow10(i as nat),
                ;
                assert(mi * q > MANTISSA_MAX || mi * q < -MANTISSA_MAX) by (nonlinear_arith)
                    requires
                        q >= 10,
                        mi > 9_999_999_999_999_999 || mi < -9_999_999_999_999_999,
                ;
            }
            return None;
        }
        proof {
            let mi = m as int;
            let pi = pow10(i as nat);
            assert(pow10((i + 1) as nat) == 10 * pi);
            assert(mi * 10 == d.mantissa * (10 * pi)) by (nonlinear_arith)
                requires
                    mi == d.mantissa * pi,
            ;
        }
        m = m * 10;
        i = i + 1;
    }
    Some(Decimal { mantissa: m, scale: 0 })
}

/// The decimal written in `buf[lo..hi]`.
pub fn parse_decimal(buf: &[u8], lo: usize, hi: usize) -> (r: Option<Decimal>)
    requires
        lo <= hi <= buf@.len(),
    ensures
        r == decimal_value(buf@.subrange(lo as int, hi as int)),
{
    let ghost s = buf@.subrange(lo as int, hi as int);
    let a = find_byte(buf, lo, hi, 101);
    let b = find_byte(buf, lo, hi, 69);
    let p = match (a, b) {
        (Some(x), Some(y)) => Some(if x < y { x } else { y }),
        (Some(x), None) => Some(x),
        (None, Some(y)) => Some(y),
        (None, None) => None,
    };
    proof {
        crate::scan::lemma_first_index(s, 101);
        crate::scan::lemma_first_index(s, 69);
    }
    match p {
        None => {
            assert(exp_index(s) is None);
            parse_plain_decimal(buf, lo, hi)
        },
        Some(p) => {
            assert(exp_index(s) == Some(p - lo));
            assert(s.subrange(0, p - lo) =~= buf@.subrange(lo as int, p as int));
            assert(s.subrange(p - lo + 1, s.len() as int) =~= buf@.subrange(p + 1, hi as int));
            let d = match parse_plain_decimal(buf, lo, p) {
                Some(d) => d,
                None => {
                    return None;
                },
            };
            let k = match parse_int(buf, p + 1, hi, -9999, 9999) {
                Some(k) => k,
                None => {
                    return None;
                },
            };
            shift(d, k)
        },
    }
}

} // verus!
