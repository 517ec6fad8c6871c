//! Decimal text for fixed-point values: exact rendering of a value as a
//! decimal string, and parsing of decimal and `minutes:seconds` /
//! `hours:minutes:seconds` time strings into fixed-point values.

use vstd::prelude::*;
use vstd::string::StrSliceExecFns;
use vstd::string::StringExecFns;

use crate::fixed::SCALE;
use crate::fixed::VALUE_LIMIT;
use crate::text::spec_digit_char;
use crate::text::spec_digits;
use crate::text::digits_string;
use crate::text::find_char;

verus! {

/// 10 to the `k`-th power.
pub open spec fn pow10(k: nat) -> int
    decreases k,
{
    if k == 0 {
        1
    } else {
        10 * pow10((k - 1) as nat)
    }
}

/// A number below `10^k` has at most `k` decimal digits.
pub proof fn lemma_digits_len_bound(n: nat, k: nat)
    requires
        k >= 1,
        n < pow10(k),
    ensures
        spec_digits(n).len() <= k,
    decreases k,
{
    if n >= 10 {
        assert(k >= 2) by {
            if k == 1 {
                assert(pow10(1nat) == 10) by {
                    reveal_with_fuel(pow10, 3);
                }
            }
        }
        assert(pow10(k) == 10 * pow10((k - 1) as nat));
        assert(n / 10 < pow10((k - 1) as nat)) by {
            if n / 10 >= pow10((k - 1) as nat) {
                assert(n >= 10 * (n / 10)) by (nonlinear_arith);
                assert(10 * (n / 10) >= 10 * pow10((k - 1) as nat)) by (nonlinear_arith)
                    requires n / 10 >= pow10((k - 1) as nat),
                ;
            }
        }
        lemma_digits_len_bound((n / 10) as nat, (k - 1) as nat);
    }
}

/// Number of decimal digits of `n`.
pub fn digits_len(n: u128) -> (r: usize)
    ensures
        r == spec_digits(n as nat).len(),
{
    proof {
        assert(pow10(39nat) > u128::MAX) by {
            reveal_with_fuel(pow10, 41);
        }
        lemma_digits_len_bound(n as nat, 39nat);
    }
    let mut x = n;
    let mut len: usize = 1;
    while x >= 10
        invariant
            1 <= len <= 39,
            spec_digits(n as nat).len() == spec_digits(x as nat).len() + len - 1,
            spec_digits(n as nat).len() <= 39,
        decreases x,
    {
        proof {
            let m = x as nat;
            assert(spec_digits(m) == spec_digits(m / 10).push(spec_digit_char(m % 10)));
            assert(spec_digits(m / 10).len() >= 1);
        }
        x = x / 10;
        len += 1;
    }
    len
}

/// The sequence of `n` zero characters.
pub open spec fn zeros(n: nat) -> Seq<char> {
    Seq::new(n, |i: int| '0')
}

/// `s` with its trailing zero characters removed.
pub open spec fn trim_zeros(s: Seq<char>) -> Seq<char>
    decreases s.len(),
{
    if s.len() == 0 {
        s
    } else if s.last() == '0' {
        trim_zeros(s.drop_last())
    } else {
        s
    }
}

/// Decimal text of a nonnegative fixed-point value: the whole units in
/// decimal and, when the fractional part is not zero, a dot followed by the
/// fraction digits with trailing zeroes removed.
pub open spec fn spec_render_fixed(v: int) -> Seq<char>
    recommends
        0 <= v,
{
    let whole = v / (SCALE as int);
    let frac = v % (SCALE as int);
    if frac == 0 {
        spec_digits(whole as nat)
    } else {
        spec_digits(whole as nat) + seq!['.'] + zeros(
            (9 - spec_digits(frac as nat).len()) as nat,
        ) + trim_zeros(spec_digits(frac as nat))
    }
}

/// Renders a nonnegative fixed-point value as decimal text.
pub fn render_fixed(v: i128) -> (r: String)
    requires
        0 <= v <= VALUE_LIMIT,
    ensures
        r@ == spec_render_fixed(v as int),
{
    let whole = v / SCALE;
    let frac = v % SCALE;
    let mut s = digits_string(whole as u128);
    if frac != 0 {
        proof {
            reveal_strlit(".");
            reveal_strlit("0");
            assert(spec_digits((frac as nat)).len() <= 9) by {
                assert(pow10(9nat) == 1_000_000_000) by {
                    reveal_with_fuel(pow10, 11);
                }
                lemma_digits_len_bound(frac as nat, 9nat);
            }
        }
        s.append(".");
        let ghost head = spec_digits(whole as nat) + seq!['.'];
        let mut reduced = frac;
        let mut trailing: usize = 0;
        while reduced % 10 == 0
            invariant
                1 <= reduced <= frac,
                trim_zeros(spec_digits(frac as nat)) == trim_zeros(spec_digits(reduced as nat)),
                spec_digits(frac as nat).len() == spec_digits(reduced as nat).len() + trailing,
            decreases reduced,
        {
            proof {
                assert(reduced >= 10);
                let m = reduced as nat;
                assert(spec_digits(m) == spec_digits(m / 10).push(spec_digit_char(m % 10)));
                assert(spec_digit_char(m % 10) == '0');
                assert(spec_digits(m).drop_last() =~= spec_digits(m / 10));
                assert(trim_zeros(spec_digits(m)) == trim_zeros(spec_digits(m / 10)));
            }
            reduced = reduced / 10;
            trailing += 1;
        }
        proof {
            assert(trim_zeros(spec_digits(reduced as nat)) == spec_digits(reduced as nat)) by {
                let d = (reduced % 10) as nat;
                assert(spec_digits(reduced as nat).last() == spec_digit_char(d));
                assert(spec_digit_char(d) != '0');
            }
        }
        let dl = digits_len(reduced as u128);
        let zero_count = 9 - dl - trailing;
        let mut z: usize = 0;
        while z < zero_count
            invariant
                z <= zero_count,
                s@ == head + zeros(z as nat),
            decreases zero_count - z,
        {
            s.append("0");
            proof {
                assert(zeros((z + 1) as nat) =~= zeros(z as nat).push('0'));
                assert(s@ =~= head + zeros((z + 1) as nat));
            }
            z += 1;
        }
        let tail = digits_string(reduced as u128);
        s.append(tail.as_str());
        proof {
            assert(s@ =~= spec_render_fixed(v as int));
        }
    }
    s
}

/// Largest count of whole units (multiples of 1.0) that the pipeline
/// supports; `MAX_WHOLE * SCALE == VALUE_LIMIT`.
pub const MAX_WHOLE: i128 = 1_000_000_000_000;

/// Whether `c` is a decimal digit.
pub open spec fn is_digit_char(c: char) -> bool {
    48 <= c as u32 <= 57
}

/// Numeric value of a decimal digit character.
pub open spec fn digit_val(c: char) -> int {
    c as u32 - 48
}

/// Whether every character of `s` is a decimal digit.
pub open spec fn all_digits(s: Seq<char>) -> bool {
    forall|i: int| 0 <= i < s.len() ==> is_digit_char(#[trigger] s[i])
}

/// Numeric value of a sequence of decimal digit characters.
pub open spec fn digits_value(s: Seq<char>) -> int
    decreases s.len(),
{
    if s.len() == 0 {
        0
    } else {
        digits_value(s.drop_last()) * 10 + digit_val(s.last())
    }
}

/// Fixed-point value of fraction digits, the first digit weighing `unit`
/// fixed-point units, the next `unit / 10`, and so on; digits beyond the
/// fixed-point resolution are ignored.
pub open spec fn frac_value(s: Seq<char>, unit: int) -> int
    decreases s.len(),
{
    if s.len() == 0 || unit <= 0 {
        0
    } else {
        digit_val(s[0]) * unit + frac_value(s.drop_first(), unit / 10)
    }
}

/// The value of a digit string never decreases when digits are appended.
pub proof fn lemma_digits_value_monotone(s: Seq<char>, k: int)
    requires
        all_digits(s),
        0 <= k <= s.len(),
    ensures
        0 <= digits_value(s.take(k)) <= digits_value(s),
    decreases s.len() - k,
{
    if k == s.len() {
        assert(s.take(k) =~= s);
        lemma_digits_value_nonneg(s);
    } else {
        assert(all_digits(s.drop_last())) by {
            assert(forall|i: int|
                0 <= i < s.drop_last().len() ==> #[trigger] s.drop_last()[i] == s[i]);
        }
        assert(s.drop_last().take(k) =~= s.take(k));
        lemma_digits_value_monotone(s.drop_last(), k);
        lemma_digits_value_nonneg(s.drop_last());
        assert(digits_value(s.drop_last()) * 10 >= digits_value(s.drop_last())) by (nonlinear_arith)
            requires digits_value(s.drop_last()) >= 0,
        ;
        assert(digit_val(s.last()) >= 0);
    }
}

/// A digit string has a nonnegative value.
pub proof fn lemma_digits_value_nonneg(s: Seq<char>)
    requires
        all_digits(s),
    ensures
        digits_value(s) >= 0,
    decreases s.len(),
{
    if s.len() > 0 {
        assert(all_digits(s.drop_last())) by {
            assert(forall|i: int|
                0 <= i < s.drop_last().len() ==> #[trigger] s.drop_last()[i] == s[i]);
        }
        lemma_digits_value_nonneg(s.drop_last());
        assert(digits_value(s.drop_last()) * 10 >= 0) by (nonlinear_arith)
            requires digits_value(s.drop_last()) >= 0,
        ;
        assert(digit_val(s.last()) >= 0);
    }
}

/// Meaning of a whole-units-and-fraction split: the text is accepted when
/// the whole part is a nonempty digit string below the supported magnitude
/// and the fraction part is a digit string (possibly empty).
pub open spec fn spec_parse_parts(whole: Seq<char>, frac: Seq<char>) -> Option<int> {
    if whole.len() == 0 || !all_digits(whole) || !all_digits(frac) {
        None
    } else if digits_value(whole) >= MAX_WHOLE as int {
        None
    } else {
        Some(digits_value(whole) * (SCALE as int) + frac_value(frac, (SCALE as int) / 10))
    }
}

/// Meaning of a decimal string `digits [ '.' digits ]` as a fixed-point
/// value; `None` when the text is not of that shape or is out of range.
pub open spec fn spec_parse_decimal(s: Seq<char>) -> Option<int> {
    match s.index_of_first('.') {
        Some(i) => spec_parse_parts(s.take(i), s.skip(i + 1)),
        None => spec_parse_parts(s, Seq::<char>::empty()),
    }
}

fn parse_whole(s: &str) -> (r: Option<i128>)
    ensures
        match r {
            Some(v) => s@.len() > 0 && all_digits(s@) && digits_value(s@) == v as int && 0 <= v
                < MAX_WHOLE,
            None => s@.len() == 0 || !all_digits(s@) || digits_value(s@) >= MAX_WHOLE as int,
        },
{
    let len = s.unicode_len();
    if len == 0 {
        return None;
    }
    let mut acc: i128 = 0;
    let mut i: usize = 0;
    while i < len
        invariant
            i <= len,
            len == s@.len(),
            all_digits(s@.take(i as int)),
            acc == digits_value(s@.take(i as int)),
            0 <= acc < 10 * MAX_WHOLE,
        decreases len - i,
    {
        let c = s.get_char(i);
        let u = c as u32;
        if u < 48 || u > 57 {
            assert(!is_digit_char(s@[i as int]));
            return None;
        }
        if acc >= MAX_WHOLE {
            proof {
                if all_digits(s@) {
                    lemma_digits_value_monotone(s@, i as int);
                }
            }
            return None;
        }
        let d = (u - 48) as i128;
        proof {
            assert(s@.take(i as int + 1).drop_last() =~= s@.take(i as int));
            assert(s@.take(i as int + 1).last() == s@[i as int]);
            assert(all_digits(s@.take(i as int + 1)));
        }
        acc = acc * 10 + d;
        i += 1;
    }
    proof {
        assert(s@.take(len as int) =~= s@);
    }
    if acc >= MAX_WHOLE {
        None
    } else {
        Some(acc)
    }
}

fn parse_frac(s: &str) -> (r: Option<i128>)
    ensures
        match r {
            Some(v) => all_digits(s@) && v as int == frac_value(s@, (SCALE as int) / 10) && 0 <= v
                < SCALE,
            None => !all_digits(s@),
        },
{
    let len = s.unicode_len();
    let mut acc: i128 = 0;
    let mut unit: i128 = SCALE / 10;
    let mut i: usize = 0;
    proof {
        assert((SCALE as int) / 10 == pow10(8nat)) by {
            reveal_with_fuel(pow10, 9);
        }
        assert(s@.skip(0) =~= s@);
    }
    while i < len
        invariant
            i <= len,
            len == s@.len(),
            forall|k: int| 0 <= k < i ==> is_digit_char(#[trigger] s@[k]),
            unit as int == (if i <= 8 {
                pow10((8 - i) as nat)
            } else {
                0
            }),
            0 <= acc,
            unit > 0 ==> acc + 10 * (unit as int) <= SCALE as int,
            unit <= 0 ==> acc < SCALE as int,
            acc + frac_value(s@.skip(i as int), unit as int) == frac_value(
                s@,
                (SCALE as int) / 10,
            ),
        decreases len - i,
    {
        let c = s.get_char(i);
        let u = c as u32;
        if u < 48 || u > 57 {
            assert(!is_digit_char(s@[i as int]));
            return None;
        }
        let d = (u - 48) as i128;
        proof {
            assert(s@.skip(i as int)[0] == s@[i as int]);
            assert(s@.skip(i as int).drop_first() =~= s@.skip(i as int + 1));
            if i < 8 {
                assert(pow10((8 - i) as nat) == 10 * pow10((8 - i - 1) as nat));
                assert((10 * pow10((8 - i - 1) as nat)) / 10 == pow10((8 - i - 1) as nat)) by (nonlinear_arith);
                assert(pow10((8 - i - 1) as nat) > 0) by {
                    lemma_pow10_positive((8 - i - 1) as nat);
                }
            }
        }
        if unit > 0 {
            proof {
                assert(0 <= d * unit <= 9 * (unit as int)) by (nonlinear_arith)
                    requires
                        0 <= d <= 9,
                        unit > 0,
                ;
            }
            acc = acc + d * unit;
        }
        unit = unit / 10;
        i += 1;
    }
    proof {
        assert(s@.skip(len as int).len() == 0);
    }
    Some(acc)
}

/// `10^k` is positive.
pub proof fn lemma_pow10_positive(k: nat)
    ensures
        pow10(k) > 0,
    decreases k,
{
    if k > 0 {
        lemma_pow10_positive((k - 1) as nat);
    }
}

/// Parses a decimal string `digits [ '.' digits ]` into a fixed-point
/// value, rejecting any other shape and whole parts of 10^12 or more.
pub fn parse_decimal(s: &str) -> (r: Option<i128>)
    ensures
        match r {
            Some(v) => spec_parse_decimal(s@) == Some(v as int) && 0 <= v < VALUE_LIMIT,
            None => spec_parse_decimal(s@) is None,
        },
{
    let len = s.unicode_len();
    match find_char(s, '.') {
        Some(dot) => {
            let whole_str = s.substring_char(0, dot);
            let frac_str = s.substring_char(dot + 1, len);
            proof {
                assert(whole_str@ =~= s@.take(dot as int));
                assert(frac_str@ =~= s@.skip(dot as int + 1));
            }
            match parse_whole(whole_str) {
                Some(w) => match parse_frac(frac_str) {
                    Some(f) => Some(w * SCALE + f),
                    None => None,
                },
                None => None,
            }
        },
        None => match parse_whole(s) {
            Some(w) => Some(w * SCALE),
            None => None,
        },
    }
}

/// A digit string's fraction value is nonnegative.
pub proof fn lemma_frac_value_nonneg(s: Seq<char>, unit: int)
    requires
        all_digits(s),
        unit >= 0,
    ensures
        frac_value(s, unit) >= 0,
    decreases s.len(),
{
    if s.len() > 0 && unit > 0 {
        assert(all_digits(s.drop_first())) by {
            assert(forall|i: int|
                0 <= i < s.drop_first().len() ==> #[trigger] s.drop_first()[i] == s[i + 1]);
        }
        lemma_frac_value_nonneg(s.drop_first(), unit / 10);
        assert(digit_val(s[0]) * unit >= 0) by (nonlinear_arith)
            requires digit_val(s[0]) >= 0, unit >= 0,
        ;
    }
}

/// An accepted decimal string denotes a value in `[0, VALUE_LIMIT)`.
pub proof fn lemma_parse_decimal_range(s: Seq<char>)
    requires
        spec_parse_decimal(s) is Some,
    ensures
        0 <= spec_parse_decimal(s)->Some_0 < VALUE_LIMIT as int,
{
    let (whole, frac) = match s.index_of_first('.') {
        Some(i) => (s.take(i), s.skip(i + 1)),
        None => (s, Seq::<char>::empty()),
    };
    assert(spec_parse_decimal(s) == spec_parse_parts(whole, frac));
    lemma_digits_value_nonneg(whole);
    lemma_frac_value_nonneg(frac, (SCALE as int) / 10);
    lemma_frac_value_bound(frac, (SCALE as int) / 10);
    let w = digits_value(whole);
    assert(w * (SCALE as int) <= (MAX_WHOLE as int - 1) * (SCALE as int)) by (nonlinear_arith)
        requires w <= MAX_WHOLE as int - 1, SCALE as int > 0,
    ;
    assert(w * (SCALE as int) >= 0) by (nonlinear_arith)
        requires w >= 0, SCALE as int > 0,
    ;
}

/// A fraction value stays below ten times its leading unit.
pub proof fn lemma_frac_value_bound(s: Seq<char>, unit: int)
    requires
        all_digits(s),
        unit >= 0,
    ensures
        frac_value(s, unit) <= (if unit > 0 {
            10 * unit - 1
        } else {
            0
        }),
    decreases s.len(),
{
    if s.len() == 0 || unit <= 0 {
    } else {
        assert(all_digits(s.drop_first())) by {
            assert(forall|i: int|
                0 <= i < s.drop_first().len() ==> #[trigger] s.drop_first()[i] == s[i + 1]);
        }
        lemma_frac_value_bound(s.drop_first(), unit / 10);
        lemma_frac_value_nonneg(s.drop_first(), unit / 10);
        assert(digit_val(s[0]) * unit <= 9 * unit) by (nonlinear_arith)
            requires digit_val(s[0]) <= 9, unit >= 0,
        ;
        assert(10 * (unit / 10) <= unit) by {
            vstd::arithmetic::div_mod::lemma_fundamental_div_mod(unit, 10);
        }
    }
}

/// An accepted runtime entry denotes a value in `[0, 3661 * VALUE_LIMIT)`.
pub proof fn lemma_runtime_entry_range(s: Seq<char>)
    requires
        spec_runtime_entry(s) is Some,
    ensures
        0 <= spec_runtime_entry(s)->Some_0 < 3661 * (VALUE_LIMIT as int),
{
    let i = s.index_of_first(':')->Some_0;
    let first = s.take(i);
    let rest = s.skip(i + 1);
    match rest.index_of_first(':') {
        None => {
            lemma_parse_decimal_range(first);
            lemma_parse_decimal_range(rest);
        },
        Some(j) => {
            let second = rest.take(j);
            let third = rest.skip(j + 1);
            lemma_parse_decimal_range(first);
            lemma_parse_decimal_range(second);
            lemma_parse_decimal_range(third);
        },
    }
}

/// Meaning of one raw runtime entry: two or three colon-separated decimal
/// components, the last weighing 1, the one before 60, the one before
/// that 3600 (so `m:s` or `h:m:s`).
pub open spec fn spec_runtime_entry(s: Seq<char>) -> Option<int> {
    match s.index_of_first(':') {
        None => None,
        Some(i) => {
            let first = s.take(i);
            let rest = s.skip(i + 1);
            match rest.index_of_first(':') {
                None => match (spec_parse_decimal(first), spec_parse_decimal(rest)) {
                    (Some(m), Some(sec)) => Some(m * 60 + sec),
                    _ => None,
                },
                Some(j) => {
                    let second = rest.take(j);
                    let third = rest.skip(j + 1);
                    match (spec_parse_decimal(first), spec_parse_decimal(second), spec_parse_decimal(third)) {
                        (Some(h), Some(m), Some(sec)) => Some(h * 3600 + m * 60 + sec),
                        _ => None,
                    }
                },
            }
        },
    }
}

/// Parses one raw runtime entry (`m:s` or `h:m:s` with decimal components)
/// into fixed-point seconds.
pub fn parse_runtime_entry(s: &str) -> (r: Option<i128>)
    ensures
        match r {
            Some(v) => spec_runtime_entry(s@) == Some(v as int) && 0 <= v < 3661 * VALUE_LIMIT,
            None => spec_runtime_entry(s@) is None,
        },
{
    let len = s.unicode_len();
    match find_char(s, ':') {
        None => None,
        Some(i) => {
            let first_str = s.substring_char(0, i);
            let rest_str = s.substring_char(i + 1, len);
            proof {
                assert(first_str@ =~= s@.take(i as int));
                assert(rest_str@ =~= s@.skip(i as int + 1));
            }
            let rest_len = rest_str.unicode_len();
            match find_char(rest_str, ':') {
                None => {
                    match (parse_decimal(first_str), parse_decimal(rest_str)) {
                        (Some(m), Some(sec)) => Some(m * 60 + sec),
                        _ => None,
                    }
                },
                Some(j) => {
                    let second_str = rest_str.substring_char(0, j);
                    let third_str = rest_str.substring_char(j + 1, rest_len);
                    proof {
                        assert(second_str@ =~= rest_str@.take(j as int));
                        assert(third_str@ =~= rest_str@.skip(j as int + 1));
                    }
                    match (parse_decimal(first_str), parse_decimal(second_str), parse_decimal(
                        third_str,
                    )) {
                        (Some(h), Some(m), Some(sec)) => Some(h * 3600 + m * 60 + sec),
                        _ => None,
                    }
                },
            }
        },
    }
}

} // verus!
