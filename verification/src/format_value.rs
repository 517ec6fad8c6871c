//! Deterministic human-readable magnitude formatting for axis labels.
//!
//! A value is shown with the largest unit (none / `k` / `M` / `G`) keeping
//! the scaled magnitude below 1000, with two decimals in `[1, 10)` of the
//! unit, one in `[10, 100)`, and none in `[100, 1000)`; halves round away
//! from zero. Zero is shown as `0`. Negative values and magnitudes of
//! 10^12 and above are unsupported.

use vstd::prelude::*;
use vstd::string::StringExecFns;

use crate::fixed::SCALE;
use crate::fixed::VALUE_LIMIT;
use crate::fixed::div_round_half_up;
use crate::text::spec_digit_char;
use crate::text::spec_digits;
use crate::text::digits_string;
use crate::text::digit_str;

verus! {

/// Why a value cannot be formatted.
#[derive(Clone, Copy, Debug, PartialEq, Eq, Structural)]
pub enum FormatValueError {
    /// The value is negative (or otherwise outside the measurement model).
    Unsupported,
    /// The magnitude is 10^12 or more.
    TooLarge,
}

/// `v / d` rendered with no decimals, halves rounding up.
pub open spec fn spec_dec0(v: int, d: int) -> Seq<char>
    recommends
        0 <= v,
        0 < d,
        d % 2 == 0,
{
    spec_digits(div_round_half_up(v, d) as nat)
}

/// `v / d` rendered with one decimal, halves rounding up.
pub open spec fn spec_dec1(v: int, d: int) -> Seq<char>
    recommends
        0 <= v,
        0 < d,
        d % 2 == 0,
{
    let t = div_round_half_up(10 * v, d);
    spec_digits((t / 10) as nat) + seq!['.'] + seq![spec_digit_char((t % 10) as nat)]
}

/// `v / d` rendered with two decimals, halves rounding up.
pub open spec fn spec_dec2(v: int, d: int) -> Seq<char>
    recommends
        0 <= v,
        0 < d,
        d % 2 == 0,
{
    let t = div_round_half_up(100 * v, d);
    spec_digits((t / 100) as nat) + seq!['.'] + seq![
        spec_digit_char(((t / 10) % 10) as nat),
        spec_digit_char((t % 10) as nat),
    ]
}

/// The formatted text of a supported value.
pub open spec fn spec_format_value(v: int) -> Seq<char>
    recommends
        0 <= v < VALUE_LIMIT as int,
{
    if v == 0 {
        seq!['0']
    } else if v < 1_000 * (SCALE as int) {
        spec_dec0(v, SCALE as int)
    } else if v < 10_000 * (SCALE as int) {
        spec_dec2(v, 1_000 * (SCALE as int)) + seq!['k']
    } else if v < 100_000 * (SCALE as int) {
        spec_dec1(v, 1_000 * (SCALE as int)) + seq!['k']
    } else if v < 1_000_000 * (SCALE as int) {
        spec_dec0(v, 1_000 * (SCALE as int)) + seq!['k']
    } else if v < 10_000_000 * (SCALE as int) {
        spec_dec2(v, 1_000_000 * (SCALE as int)) + seq!['M']
    } else if v < 100_000_000 * (SCALE as int) {
        spec_dec1(v, 1_000_000 * (SCALE as int)) + seq!['M']
    } else if v < 1_000_000_000 * (SCALE as int) {
        spec_dec0(v, 1_000_000 * (SCALE as int)) + seq!['M']
    } else if v < 10_000_000_000 * (SCALE as int) {
        spec_dec2(v, 1_000_000_000 * (SCALE as int)) + seq!['G']
    } else if v < 100_000_000_000 * (SCALE as int) {
        spec_dec1(v, 1_000_000_000 * (SCALE as int)) + seq!['G']
    } else {
        spec_dec0(v, 1_000_000_000 * (SCALE as int)) + seq!['G']
    }
}

fn dec0(v: i128, d: i128) -> (r: String)
    requires
        0 <= v <= VALUE_LIMIT,
        0 < d <= VALUE_LIMIT,
        d % 2 == 0,
    ensures
        r@ == spec_dec0(v as int, d as int),
{
    let t = (v + d / 2) / d;
    digits_string(t as u128)
}

fn dec1(v: i128, d: i128) -> (r: String)
    requires
        0 <= v <= VALUE_LIMIT,
        0 < d <= VALUE_LIMIT,
        d % 2 == 0,
    ensures
        r@ == spec_dec1(v as int, d as int),
{
    let t = (10 * v + d / 2) / d;
    let mut s = digits_string((t / 10) as u128);
    proof {
        reveal_strlit(".");
    }
    s.append(".");
    s.append(digit_str((t % 10) as u128));
    proof {
        assert(s@ =~= spec_dec1(v as int, d as int));
    }
    s
}

fn dec2(v: i128, d: i128) -> (r: String)
    requires
        0 <= v <= VALUE_LIMIT,
        0 < d <= VALUE_LIMIT,
        d % 2 == 0,
    ensures
        r@ == spec_dec2(v as int, d as int),
{
    let t = (100 * v + d / 2) / d;
    let mut s = digits_string((t / 100) as u128);
    proof {
        reveal_strlit(".");
    }
    s.append(".");
    s.append(digit_str(((t / 10) % 10) as u128));
    s.append(digit_str((t % 10) as u128));
    proof {
        assert(s@ =~= spec_dec2(v as int, d as int));
    }
    s
}

/// Formats a fixed-point value for an axis label: zero as `0`, other values
/// scaled to the largest fitting unit of none / `k` / `M` / `G`. Negative
/// values and magnitudes of 10^12 and above are reported as errors.
pub fn format_value(value: i128) -> (r: Result<String, FormatValueError>)
    ensures
        match r {
            Ok(s) => 0 <= value < VALUE_LIMIT && s@ == spec_format_value(value as int),
            Err(e) => (e == FormatValueError::Unsupported && value < 0) || (
            e == FormatValueError::TooLarge && value >= VALUE_LIMIT),
        },
{
    if value < 0 {
        return Err(FormatValueError::Unsupported);
    }
    if value >= VALUE_LIMIT {
        return Err(FormatValueError::TooLarge);
    }
    proof {
        reveal_strlit("0");
        reveal_strlit("k");
        reveal_strlit("M");
        reveal_strlit("G");
    }
    if value == 0 {
        let s = String::from_str("0");
        proof {
            assert(s@ =~= seq!['0']);
        }
        return Ok(s);
    }
    let s = if value < 1_000 * SCALE {
        dec0(value, SCALE)
    } else if value < 10_000 * SCALE {
        let mut t = dec2(value, 1_000 * SCALE);
        t.append("k");
        t
    } else if value < 100_000 * SCALE {
        let mut t = dec1(value, 1_000 * SCALE);
        t.append("k");
        t
    } else if value < 1_000_000 * SCALE {
        let mut t = dec0(value, 1_000 * SCALE);
        t.append("k");
        t
    } else if value < 10_000_000 * SCALE {
        let mut t = dec2(value, 1_000_000 * SCALE);
        t.append("M");
        t
    } else if value < 100_000_000 * SCALE {
        let mut t = dec1(value, 1_000_000 * SCALE);
        t.append("M");
        t
    } else if value < 1_000_000_000 * SCALE {
        let mut t = dec0(value, 1_000_000 * SCALE);
        t.append("M");
        t
    } else if value < 10_000_000_000 * SCALE {
        let mut t = dec2(value, 1_000_000_000 * SCALE);
        t.append("G");
        t
    } else if value < 100_000_000_000 * SCALE {
        let mut t = dec1(value, 1_000_000_000 * SCALE);
        t.append("G");
        t
    } else {
        let mut t = dec0(value, 1_000_000_000 * SCALE);
        t.append("G");
        t
    };
    proof {
        assert(s@ =~= spec_format_value(value as int));
    }
    Ok(s)
}

} // verus!
