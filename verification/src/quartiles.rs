//! The boxplot value pipeline: extracting one measurement per contained
//! run of a merged summary, computing order-statistic quartiles over the
//! raw values, and the epsilon-suppression pass that clamps quartile
//! values near zero before an axis transform is applied.

use vstd::prelude::*;

use crate::fixed::VALUE_LIMIT;
use crate::fixed::seq_min;
use crate::fixed::seq_max;
use crate::merge::MergedGroup;
use crate::sorting::sorted_of;
use crate::sorting::sort_values;
use crate::sorting::spec_rank_interpolated;
use crate::statistics_file::AlignmentStatistics;
use crate::statistics_file::MergedStatisticsFile;

verus! {

/// The value projection of a chart: which measurement is drawn on the
/// value axis.
#[derive(Clone, Copy, Debug, PartialEq, Eq, Structural)]
pub enum ValueProjection {
    /// The number of opened search nodes.
    OpenedNodes,
    /// The runtime in seconds.
    RuntimeSeconds,
    /// The peak memory in mebibytes.
    MemoryMebibytes,
    /// The number of template switches.
    TemplateSwitchAmount,
}

/// The charted value of a measurement record under a value projection,
/// in fixed-point units. Meant for valid (nonnegative) measurements.
pub open spec fn spec_value_of(m: AlignmentStatistics, proj: ValueProjection) -> i128 {
    match proj {
        ValueProjection::OpenedNodes => m.opened_nodes,
        ValueProjection::RuntimeSeconds => m.runtime,
        ValueProjection::MemoryMebibytes => (m.memory as int / 1_048_576) as i128,
        ValueProjection::TemplateSwitchAmount => m.template_switch_amount,
    }
}

/// The charted value of a measurement record under a value projection.
pub fn value_of(m: &AlignmentStatistics, proj: &ValueProjection) -> (r: i128)
    requires
        m.memory >= 0,
    ensures
        r == spec_value_of(*m, *proj),
{
    match proj {
        ValueProjection::OpenedNodes => m.opened_nodes,
        ValueProjection::RuntimeSeconds => m.runtime,
        ValueProjection::MemoryMebibytes => m.memory / 1_048_576,
        ValueProjection::TemplateSwitchAmount => m.template_switch_amount,
    }
}

/// The charted values of a summary's contained measurement records, in
/// input order.
pub open spec fn spec_contained_values(
    m: MergedStatisticsFile,
    proj: ValueProjection,
) -> Seq<i128> {
    m.contained_statistics@.map_values(|s: AlignmentStatistics| spec_value_of(s, proj))
}

/// Extracts the charted values of a summary's contained measurement
/// records.
pub fn contained_values(m: &MergedStatisticsFile, proj: &ValueProjection) -> (r: Vec<i128>)
    requires
        forall|i: int|
            0 <= i < m.contained_statistics@.len() ==> (#[trigger] m.contained_statistics@[i]).memory
                >= 0,
    ensures
        r@ == spec_contained_values(*m, *proj),
{
    let mut r: Vec<i128> = Vec::new();
    let mut i: usize = 0;
    while i < m.contained_statistics.len()
        invariant
            i <= m.contained_statistics@.len(),
            forall|k: int|
                0 <= k < m.contained_statistics@.len() ==> (#[trigger] m.contained_statistics@[k]).memory
                    >= 0,
            r@ =~= m.contained_statistics@.take(i as int).map_values(
                |s: AlignmentStatistics| spec_value_of(s, *proj),
            ),
        decreases m.contained_statistics@.len() - i,
    {
        r.push(value_of(&m.contained_statistics[i], proj));
        proof {
            assert(r@ =~= m.contained_statistics@.take(i as int + 1).map_values(
                |s: AlignmentStatistics| spec_value_of(s, *proj),
            ));
        }
        i += 1;
    }
    proof {
        assert(m.contained_statistics@.take(m.contained_statistics@.len() as int)
            =~= m.contained_statistics@);
    }
    r
}

/// The five boxplot quartiles of a value distribution: minimum, lower
/// quartile, median, upper quartile and maximum.
#[derive(Clone, Copy, Debug, PartialEq, Eq, Structural)]
pub struct Quartiles {
    pub min: i128,
    pub lower: i128,
    pub median: i128,
    pub upper: i128,
    pub max: i128,
}

fn rank_value(sorted_values: &Vec<i128>, num: usize) -> (r: i128)
    requires
        sorted_values@.len() > 0,
        crate::sorting::sorted(sorted_values@),
        num <= 4,
        forall|i: int|
            0 <= i < sorted_values@.len() ==> -VALUE_LIMIT <= #[trigger] sorted_values@[i]
                <= VALUE_LIMIT,
    ensures
        r as int == spec_rank_interpolated(sorted_values@, num as int, 4),
{
    let n = sorted_values.len();
    proof {
        assert(((n - 1) as int) * (num as int) <= ((n - 1) as int) * 4) by (nonlinear_arith)
            requires num <= 4, n >= 1,
        ;
        assert((((n - 1) as int) * 4) / 4 == (n - 1) as int) by {
            vstd::arithmetic::div_mod::lemma_div_by_multiple((n - 1) as int, 4);
        }
        vstd::arithmetic::div_mod::lemma_div_is_ordered(
            ((n - 1) as int) * (num as int),
            ((n - 1) as int) * 4,
            4,
        );
        assert(((n - 1) as int) * (num as int) >= 0) by (nonlinear_arith)
            requires n >= 1, num >= 0,
        ;
        vstd::arithmetic::div_mod::lemma_div_pos_is_pos(((n - 1) as int) * (num as int), 4);
    }
    let pos: u128 = ((n - 1) as u128) * (num as u128);
    let lo_wide = pos / 4;
    let rem = pos % 4;
    proof {
        assert(pos as int == ((n - 1) as int) * (num as int));
        assert(lo_wide <= (n - 1) as u128);
    }
    let lo = lo_wide as usize;
    if rem == 0 || lo + 1 >= n {
        sorted_values[lo]
    } else {
        let a = sorted_values[lo];
        let b = sorted_values[lo + 1];
        proof {
            assert(a <= b);
            assert(0 <= (b - a) as int * (rem as int) <= (b - a) as int * 4) by (nonlinear_arith)
                requires b - a >= 0, 0 <= rem <= 4,
            ;
        }
        a + (b - a) * (rem as i128) / 4
    }
}

/// Computes the five standard order-statistic quartiles of a nonempty
/// value distribution: the values of the sorted distribution at ranks
/// `0`, `1/4`, `1/2`, `3/4` and `1` of `n - 1`, linearly interpolated
/// between adjacent order statistics.
pub fn quartiles(values: &Vec<i128>) -> (r: Quartiles)
    requires
        values@.len() > 0,
        forall|i: int|
            0 <= i < values@.len() ==> -VALUE_LIMIT <= #[trigger] values@[i] <= VALUE_LIMIT,
    ensures
        r.min as int == spec_rank_interpolated(sorted_of(values@), 0, 4),
        r.lower as int == spec_rank_interpolated(sorted_of(values@), 1, 4),
        r.median as int == spec_rank_interpolated(sorted_of(values@), 2, 4),
        r.upper as int == spec_rank_interpolated(sorted_of(values@), 3, 4),
        r.max as int == spec_rank_interpolated(sorted_of(values@), 4, 4),
{
    let sorted_values = sort_values(values);
    proof {
        broadcast use vstd::seq_lib::group_to_multiset_ensures;

        assert forall|i: int|
            0 <= i < sorted_values@.len() implies -VALUE_LIMIT <= #[trigger] sorted_values@[i]
            <= VALUE_LIMIT by {
            assert(sorted_values@.to_multiset().count(sorted_values@[i]) > 0);
            assert(values@.contains(sorted_values@[i]));
            let j = choose|j: int| 0 <= j < values@.len() && values@[j] == sorted_values@[i];
        }
    }
    Quartiles {
        min: rank_value(&sorted_values, 0),
        lower: rank_value(&sorted_values, 1),
        median: rank_value(&sorted_values, 2),
        upper: rank_value(&sorted_values, 3),
        max: rank_value(&sorted_values, 4),
    }
}

/// The epsilon threshold under which quartile values are suppressed:
/// `max(|min_value|, |max_value|, max_value - min_value) * 10^-12`,
/// rounded down. Computed once from the global value range so that all
/// boxes of a chart are comparable.
pub open spec fn spec_value_epsilon(min_value: int, max_value: int) -> int {
    let a = if min_value < 0 {
        -min_value
    } else {
        min_value
    };
    let b = if max_value < 0 {
        -max_value
    } else {
        max_value
    };
    let c = max_value - min_value;
    let m = if a >= b && a >= c {
        a
    } else if b >= a && b >= c {
        b
    } else {
        c
    };
    m / 1_000_000_000_000
}

/// Computes the epsilon threshold of a global value range.
pub fn value_epsilon(min_value: i128, max_value: i128) -> (r: i128)
    requires
        -VALUE_LIMIT <= min_value <= VALUE_LIMIT,
        -VALUE_LIMIT <= max_value <= VALUE_LIMIT,
    ensures
        r as int == spec_value_epsilon(min_value as int, max_value as int),
{
    let a = if min_value < 0 {
        -min_value
    } else {
        min_value
    };
    let b = if max_value < 0 {
        -max_value
    } else {
        max_value
    };
    let c = max_value - min_value;
    let m = if a >= b && a >= c {
        a
    } else if b >= a && b >= c {
        b
    } else {
        c
    };
    proof {
        assert(m >= 0);
    }
    m / 1_000_000_000_000
}

/// Suppresses quartile values below the epsilon threshold: each of the
/// five values strictly below `epsilon` collapses to exactly zero, the
/// others stay unchanged. Applied before the axis transform to avoid
/// transform artifacts near zero.
pub fn suppress_epsilon(q: &Quartiles, epsilon: i128) -> (r: Quartiles)
    ensures
        r.min == (if q.min < epsilon { 0i128 } else { q.min }),
        r.lower == (if q.lower < epsilon { 0i128 } else { q.lower }),
        r.median == (if q.median < epsilon { 0i128 } else { q.median }),
        r.upper == (if q.upper < epsilon { 0i128 } else { q.upper }),
        r.max == (if q.max < epsilon { 0i128 } else { q.max }),
{
    Quartiles {
        min: if q.min < epsilon { 0 } else { q.min },
        lower: if q.lower < epsilon { 0 } else { q.lower },
        median: if q.median < epsilon { 0 } else { q.median },
        upper: if q.upper < epsilon { 0 } else { q.upper },
        max: if q.max < epsilon { 0 } else { q.max },
    }
}

/// The charted values of the per-summary maximum records across all
/// groups, in order; the global value range folds over these.
pub open spec fn max_stat_values(groups: Seq<MergedGroup>, proj: ValueProjection) -> Seq<i128>
    decreases groups.len(),
{
    if groups.len() == 0 {
        Seq::<i128>::empty()
    } else {
        max_stat_values(groups.drop_last(), proj) + groups.last().files@.map_values(
            |m: MergedStatisticsFile| spec_value_of(m.max_statistics, proj),
        )
    }
}

/// The global value range for axis scaling: the fold of the per-summary
/// maximum values, the minimum starting from the largest representable
/// value and the maximum starting from zero.
pub fn value_range(groups: &Vec<MergedGroup>, proj: &ValueProjection) -> (r: (i128, i128))
    requires
        groups@.len() > 0,
        forall|g: int| 0 <= g < groups@.len() ==> (#[trigger] groups@[g]).files@.len() > 0,
        forall|g: int, m: int|
            0 <= g < groups@.len() && 0 <= m < groups@[g].files@.len() ==> (#[trigger] groups@[
                g
            ].files@[m]).max_statistics.memory >= 0,
    ensures
        r.0 == seq_min(max_stat_values(groups@, *proj)),
        r.1 == (if seq_max(max_stat_values(groups@, *proj)) >= 0 {
            seq_max(max_stat_values(groups@, *proj))
        } else {
            0i128
        }),
{
    let mut collected: Vec<i128> = Vec::new();
    let mut g: usize = 0;
    while g < groups.len()
        invariant
            g <= groups@.len(),
            collected@ == max_stat_values(groups@.take(g as int), *proj),
            forall|gg: int, m: int|
                0 <= gg < groups@.len() && 0 <= m < groups@[gg].files@.len() ==> (
                #[trigger] groups@[gg].files@[m]).max_statistics.memory >= 0,
        decreases groups.len() - g,
    {
        let files = &groups[g].files;
        let ghost done = collected@;
        let mut i: usize = 0;
        while i < files.len()
            invariant
                i <= files@.len(),
                files@ == groups@[g as int].files@,
                g < groups@.len(),
                forall|m: int|
                    0 <= m < files@.len() ==> (#[trigger] files@[m]).max_statistics.memory >= 0,
                collected@ =~= done + files@.take(i as int).map_values(
                    |m: MergedStatisticsFile| spec_value_of(m.max_statistics, *proj),
                ),
            decreases files.len() - i,
        {
            collected.push(value_of(&files[i].max_statistics, proj));
            proof {
                assert(collected@ =~= done + files@.take(i as int + 1).map_values(
                    |m: MergedStatisticsFile| spec_value_of(m.max_statistics, *proj),
                ));
            }
            i += 1;
        }
        proof {
            assert(files@.take(files@.len() as int) =~= files@);
            let taken = groups@.take(g as int + 1);
            assert(taken.drop_last() =~= groups@.take(g as int));
            assert(taken.last() == groups@[g as int]);
            assert(collected@ =~= max_stat_values(taken, *proj));
        }
        g += 1;
    }
    proof {
        assert(groups@.take(groups@.len() as int) =~= groups@);
        assert(max_stat_values(groups@, *proj).len() > 0) by {
            assert(groups@[groups@.len() - 1].files@.len() > 0);
        }
        crate::fixed::lemma_seq_min_ensures(collected@);
        crate::fixed::lemma_seq_max_ensures(collected@);
    }
    let lo = crate::sorting::min_value_of(&collected);
    let hi = crate::sorting::max_value_of(&collected);
    let hi_clamped = if hi >= 0 {
        hi
    } else {
        0
    };
    (lo, hi_clamped)
}

} // verus!
