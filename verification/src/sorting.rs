//! Verified insertion sort for fixed-point values.

use vstd::prelude::*;
use vstd::multiset::Multiset;
use vstd::seq_lib::lemma_multiset_commutative;

use crate::fixed::seq_min;
use crate::fixed::seq_max;

verus! {

/// Nondecreasing order over a sequence of values.
pub open spec fn sorted(s: Seq<i128>) -> bool {
    forall|i: int, j: int| 0 <= i <= j < s.len() ==> s[i] <= s[j]
}

/// The nonstrict order that [`sort_values`] sorts by.
pub open spec fn value_leq(a: i128, b: i128) -> bool {
    a <= b
}

/// The sorted permutation of a sequence of values: the unique sequence in
/// nondecreasing order holding exactly the values of `s`.
pub open spec fn sorted_of(s: Seq<i128>) -> Seq<i128> {
    choose|t: Seq<i128>| t.to_multiset() == s.to_multiset() && sorted(t)
}

/// Any sorted sequence holding exactly the values of `s` is `sorted_of(s)`.
pub proof fn lemma_sorted_of_is(s: Seq<i128>, t: Seq<i128>)
    requires
        t.to_multiset() == s.to_multiset(),
        sorted(t),
    ensures
        sorted_of(s) == t,
{
    assert(exists|u: Seq<i128>|
        u.to_multiset() == s.to_multiset() && sorted(u)) by {
        assert(t.to_multiset() == s.to_multiset() && sorted(t));
    }
    let u = sorted_of(s);
    let leq = |a: i128, b: i128| a <= b;
    assert(vstd::relations::sorted_by(u, leq));
    assert(vstd::relations::sorted_by(t, leq));
    vstd::seq_lib::lemma_sorted_unique(u, t, leq);
}

/// The value of a sorted sequence at rank `(num / den) * (len - 1)`,
/// linearly interpolated between the two adjacent order statistics
/// (rounding the interpolated value down). Meant for a nonempty `sorted`
/// and `0 <= num <= den`, `den > 0`.
pub open spec fn spec_rank_interpolated(sorted_values: Seq<i128>, num: int, den: int) -> int {
    let pos_num = (sorted_values.len() - 1) * num;
    let lo = pos_num / den;
    let rem = pos_num % den;
    if rem == 0 || lo + 1 >= sorted_values.len() {
        sorted_values[lo] as int
    } else {
        sorted_values[lo] + (sorted_values[lo + 1] - sorted_values[lo]) * rem / den
    }
}

/// Sorts the values into nondecreasing order; the result holds exactly the
/// input values, and therefore agrees with the mathematical sort of the input.
pub fn sort_values(values: &Vec<i128>) -> (r: Vec<i128>)
    ensures
        sorted(r@),
        r@.to_multiset() == values@.to_multiset(),
        r@.len() == values@.len(),
        r@ == sorted_of(values@),
{
    broadcast use vstd::seq_lib::group_to_multiset_ensures;

    let mut r: Vec<i128> = Vec::new();
    let mut i: usize = 0;
    while i < values.len()
        invariant
            i <= values.len(),
            sorted(r@),
            r@.to_multiset() == values@.take(i as int).to_multiset(),
            r@.len() == i,
        decreases values.len() - i,
    {
        let v = values[i];
        let mut j: usize = 0;
        while j < r.len() && r[j] <= v
            invariant
                j <= r.len(),
                forall|k: int| 0 <= k < j ==> r@[k] <= v,
            decreases r.len() - j,
        {
            j += 1;
        }
        let ghost prefix = r@.take(j as int);
        let ghost suffix = r@.skip(j as int);
        r.insert(j, v);
        proof {
            assert(r@ =~= prefix + seq![v] + suffix);
            lemma_multiset_commutative(prefix + seq![v], suffix);
            lemma_multiset_commutative(prefix, seq![v]);
            lemma_multiset_commutative(prefix, suffix);
            assert(seq![v].to_multiset() =~= Multiset::<i128>::empty().insert(v)) by {
                assert(seq![v].drop_last() =~= Seq::<i128>::empty());
            }
            assert(r@.to_multiset() =~= (prefix + suffix).to_multiset().insert(v));
            assert(values@.take(i as int + 1).drop_last() =~= values@.take(i as int));
            assert(values@.take(i as int + 1).to_multiset() =~= values@.take(
                i as int,
            ).to_multiset().insert(v)) by {
                assert(values@.take(i as int + 1) =~= values@.take(i as int).push(v));
            }
        }
        i += 1;
    }
    proof {
        assert(values@.take(values@.len() as int) =~= values@);
        lemma_sorted_of_is(values@, r@);
    }
    r
}

/// Smallest element of a nonempty vector of values.
pub fn min_value_of(values: &Vec<i128>) -> (r: i128)
    requires
        values@.len() > 0,
    ensures
        r == seq_min(values@),
{
    let mut r = values[0];
    let mut i: usize = 1;
    while i < values.len()
        invariant
            1 <= i <= values.len(),
            r == seq_min(values@.take(i as int)),
        decreases values.len() - i,
    {
        proof {
            assert(values@.take(i as int + 1).drop_last() =~= values@.take(i as int));
        }
        if values[i] < r {
            r = values[i];
        }
        i += 1;
    }
    proof {
        assert(values@.take(values@.len() as int) =~= values@);
    }
    r
}

/// Largest element of a nonempty vector of values.
pub fn max_value_of(values: &Vec<i128>) -> (r: i128)
    requires
        values@.len() > 0,
    ensures
        r == seq_max(values@),
{
    let mut r = values[0];
    let mut i: usize = 1;
    while i < values.len()
        invariant
            1 <= i <= values.len(),
            r == seq_max(values@.take(i as int)),
        decreases values.len() - i,
    {
        proof {
            assert(values@.take(i as int + 1).drop_last() =~= values@.take(i as int));
        }
        if values[i] > r {
            r = values[i];
        }
        i += 1;
    }
    proof {
        assert(values@.take(values@.len() as int) =~= values@);
    }
    r
}

} // verus!
