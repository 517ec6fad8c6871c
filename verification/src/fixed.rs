//! Fixed-point representation of measured values.
//!
//! Every measured quantity (cost, node counts, runtimes in seconds, memory in
//! bytes) is held as an `i128` counting units of `1 / SCALE`, so that all
//! aggregation arithmetic is exact and the supported magnitudes (up to 10^12)
//! stay far away from overflow.

use vstd::prelude::*;

verus! {

/// Number of fixed-point units per 1.0 of a measured value.
pub const SCALE: i128 = 1_000_000_000;

/// Largest supported measured value, in fixed-point units: 10^12 units of 1.0.
/// Magnitudes of 10^12 and above are not supported by the value formatter.
pub const VALUE_LIMIT: i128 = 1_000_000_000_000 * SCALE;

/// A measured value is valid when it is nonnegative and within the supported
/// magnitude range.
pub open spec fn valid_value(v: int) -> bool {
    0 <= v <= VALUE_LIMIT as int
}

/// Minimum of a nonempty sequence of values.
pub open spec fn seq_min(s: Seq<i128>) -> i128
    recommends
        s.len() > 0,
    decreases s.len(),
{
    if s.len() <= 1 {
        s[0]
    } else if s.last() < seq_min(s.drop_last()) {
        s.last()
    } else {
        seq_min(s.drop_last())
    }
}

/// Maximum of a nonempty sequence of values.
pub open spec fn seq_max(s: Seq<i128>) -> i128
    recommends
        s.len() > 0,
    decreases s.len(),
{
    if s.len() <= 1 {
        s[0]
    } else if s.last() > seq_max(s.drop_last()) {
        s.last()
    } else {
        seq_max(s.drop_last())
    }
}

/// Sum of a sequence of values, as an unbounded integer.
pub open spec fn seq_sum(s: Seq<i128>) -> int
    decreases s.len(),
{
    if s.len() == 0 {
        0
    } else {
        seq_sum(s.drop_last()) + s.last()
    }
}

/// `n / d` rounded to the nearest integer, halves away from zero.
/// Meant for nonnegative `n` and positive even `d`.
pub open spec fn div_round_half_up(n: int, d: int) -> int
    recommends
        0 <= n,
        0 < d,
        d % 2 == 0,
{
    (n + d / 2) / d
}

/// The minimum of a nonempty sequence is one of its elements and is a lower
/// bound for all of them.
pub proof fn lemma_seq_min_ensures(s: Seq<i128>)
    requires
        s.len() > 0,
    ensures
        s.contains(seq_min(s)),
        forall|i: int| 0 <= i < s.len() ==> seq_min(s) <= s[i],
    decreases s.len(),
{
    if s.len() > 1 {
        lemma_seq_min_ensures(s.drop_last());
        assert forall|i: int| 0 <= i < s.len() implies seq_min(s) <= s[i] by {
            if i < s.len() - 1 {
                assert(s.drop_last()[i] == s[i]);
            }
        }
        if seq_min(s) != s.last() {
            let j = choose|j: int| 0 <= j < s.drop_last().len() && s.drop_last()[j] == seq_min(
                s.drop_last(),
            );
            assert(s[j] == seq_min(s));
        }
    }
}

/// The maximum of a nonempty sequence is one of its elements and is an upper
/// bound for all of them.
pub proof fn lemma_seq_max_ensures(s: Seq<i128>)
    requires
        s.len() > 0,
    ensures
        s.contains(seq_max(s)),
        forall|i: int| 0 <= i < s.len() ==> s[i] <= seq_max(s),
    decreases s.len(),
{
    if s.len() > 1 {
        lemma_seq_max_ensures(s.drop_last());
        assert forall|i: int| 0 <= i < s.len() implies s[i] <= seq_max(s) by {
            if i < s.len() - 1 {
                assert(s.drop_last()[i] == s[i]);
            }
        }
        if seq_max(s) != s.last() {
            let j = choose|j: int| 0 <= j < s.drop_last().len() && s.drop_last()[j] == seq_max(
                s.drop_last(),
            );
            assert(s[j] == seq_max(s));
        }
    }
}

/// A sum of values out of `[lo, hi]` lies within `[len * lo, len * hi]`.
pub proof fn lemma_seq_sum_bounds(s: Seq<i128>, lo: int, hi: int)
    requires
        forall|i: int| 0 <= i < s.len() ==> lo <= #[trigger] s[i] <= hi,
    ensures
        s.len() * lo <= seq_sum(s) <= s.len() * hi,
    decreases s.len(),
{
    if s.len() > 0 {
        assert(forall|i: int| 0 <= i < s.drop_last().len() ==> #[trigger] s.drop_last()[i] == s[i]);
        assert(lo <= s[s.len() - 1] <= hi);
        lemma_seq_sum_bounds(s.drop_last(), lo, hi);
        assert(seq_sum(s) == seq_sum(s.drop_last()) + s.last());
        assert(s.drop_last().len() == s.len() - 1);
        let n = s.len() as int;
        assert((n - 1) * lo + lo == n * lo) by (nonlinear_arith);
        assert((n - 1) * hi + hi == n * hi) by (nonlinear_arith);
        assert(seq_sum(s) >= (n - 1) * lo + lo);
        assert(seq_sum(s) <= (n - 1) * hi + hi);
    } else {
        assert(seq_sum(s) == 0);
        assert(s.len() * lo == 0) by (nonlinear_arith)
            requires s.len() == 0,
        ;
        assert(s.len() * hi == 0) by (nonlinear_arith)
            requires s.len() == 0,
        ;
    }
}

/// Rounds a nonnegative fixed-point value to the nearest whole unit
/// (a multiple of 1.0), halves rounding up. The result is a plain integer,
/// not in fixed-point units.
pub fn round_to_integer(v: i128) -> (r: i128)
    requires
        0 <= v <= VALUE_LIMIT,
    ensures
        r == div_round_half_up(v as int, SCALE as int),
{
    (v + SCALE / 2) / SCALE
}

} // verus!
