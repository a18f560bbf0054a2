//! Parsing the report read from a hwmon temperature node: a millidegree
//! value in decimal ASCII, reduced to whole degrees Celsius.

use vstd::prelude::*;
use crate::fan_control::Error;
use crate::parse::all_digits;
use crate::parse::digits_val;
use crate::parse::is_digit_byte;
use crate::parse::lemma_digits_val_nonneg;
use crate::parse::lemma_digits_val_push;
use crate::parse::trimmed;
use crate::parse::trimmed_copy;

verus! {

/// The report with surrounding whitespace stripped.
pub open spec fn report_body(raw: Seq<u8>) -> Seq<u8> {
    trimmed(raw)
}

/// Whether the report carries a leading ASCII minus sign.
pub open spec fn report_neg(raw: Seq<u8>) -> bool {
    report_body(raw).len() > 0 && report_body(raw)[0] == 45
}

/// The digit string giving the millidegree magnitude.
pub open spec fn report_digits(raw: Seq<u8>) -> Seq<u8> {
    if report_neg(raw) {
        report_body(raw).drop_first()
    } else {
        report_body(raw)
    }
}

/// Whole degrees Celsius: the millidegree value divided by 1000, truncated
/// toward zero.
pub open spec fn report_celsius(raw: Seq<u8>) -> int {
    if report_neg(raw) {
        -(digits_val(report_digits(raw)) / 1000)
    } else {
        digits_val(report_digits(raw)) / 1000
    }
}

/// A well-formed report: an optional minus sign, one or more decimal digits,
/// whitespace allowed around them, and whole degrees that fit a signed
/// 16-bit value.
pub open spec fn report_valid(raw: Seq<u8>) -> bool {
    &&& report_digits(raw).len() > 0
    &&& all_digits(report_digits(raw))
    &&& -32768 <= report_celsius(raw) <= 32767
}

/// Magnitudes at or above this bound cannot yield an in-range temperature,
/// so accumulation saturates here.
pub const MAG_SATURATION: u32 = 100000000;

/// Parses a temperature report. Returns the whole-degree reading for a
/// well-formed report and hands the raw report back inside the error for
/// any other content.
pub fn read_temperature(raw: &Vec<u8>) -> (r: Result<i16, Error>)
    ensures
        r is Ok <==> report_valid(raw@),
        report_valid(raw@) ==> (r matches Ok(c) && c == report_celsius(raw@)),
        !report_valid(raw@) ==> (r matches Err(Error::ReadTemperature(b)) && b@ == raw@),
{
    let body = trimmed_copy(raw);
    let n = body.len();
    let neg = n > 0 && body[0] == 45;
    let start: usize = if neg {
        1
    } else {
        0
    };
    proof {
        assert(report_neg(raw@) == neg);
        assert(report_digits(raw@) =~= body@.subrange(start as int, n as int));
    }
    if n == start {
        return Err(Error::ReadTemperature(copy_report(raw)));
    }
    let mut mag: u32 = 0;
    let mut i: usize = start;
    while i < n
        invariant
            start <= i <= n == body.len(),
            report_digits(raw@) == body@.subrange(start as int, n as int),
            all_digits(body@.subrange(start as int, i as int)),
            digits_val(body@.subrange(start as int, i as int)) < MAG_SATURATION ==> mag
                == digits_val(body@.subrange(start as int, i as int)),
            digits_val(body@.subrange(start as int, i as int)) >= MAG_SATURATION ==> mag
                == MAG_SATURATION,
            mag <= MAG_SATURATION,
        decreases n - i,
    {
        let b = body[i];
        if !is_digit_byte(b) {
            proof {
                assert(report_digits(raw@)[i - start] == b);
            }
            return Err(Error::ReadTemperature(copy_report(raw)));
        }
        let ghost ds = body@.subrange(start as int, i as int);
        proof {
            lemma_digits_val_nonneg(ds);
            lemma_digits_val_push(ds, b);
            assert(body@.subrange(start as int, i + 1) =~= ds.push(b));
        }
        let step: u32 = mag * 10 + (b - 48) as u32;
        mag = if step >= MAG_SATURATION {
            MAG_SATURATION
        } else {
            step
        };
        i = i + 1;
    }
    proof {
        assert(body@.subrange(start as int, n as int) =~= report_digits(raw@));
        lemma_digits_val_nonneg(report_digits(raw@));
    }
    let ghost dv = digits_val(report_digits(raw@));
    if mag == MAG_SATURATION {
        // the true magnitude is at least the saturation bound, far outside
        // the representable range
        proof {
            vstd::arithmetic::div_mod::lemma_div_is_ordered(
                MAG_SATURATION as int,
                dv,
                1000,
            );
        }
        return Err(Error::ReadTemperature(copy_report(raw)));
    }
    let q: u32 = mag / 1000;
    if neg {
        if q > 32768 {
            return Err(Error::ReadTemperature(copy_report(raw)));
        }
        Ok((-(q as i32)) as i16)
    } else {
        if q > 32767 {
            return Err(Error::ReadTemperature(copy_report(raw)));
        }
        Ok(q as i16)
    }
}

/// Copy of the raw report, handed back inside parse errors.
fn copy_report(raw: &Vec<u8>) -> (r: Vec<u8>)
    ensures
        r@ == raw@,
{
    let c = raw.clone();
    proof {
        assert(c@ =~= raw@);
    }
    c
}

} // verus!
