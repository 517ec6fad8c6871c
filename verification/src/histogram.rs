//! The histogram aggregation: counting, per group, how often each rounded
//! key occurs, with the resulting series ordered by key.

use vstd::prelude::*;

use vstd::multiset::Multiset;
use vstd::seq_lib::lemma_multiset_commutative;

use crate::fixed::SCALE;
use crate::fixed::VALUE_LIMIT;
use crate::fixed::div_round_half_up;
use crate::fixed::round_to_integer;
use crate::grouping::Group;
use crate::quartiles::ValueProjection;
use crate::quartiles::spec_value_of;
use crate::quartiles::value_of;
use crate::statistics_file::AlignmentStatistics;
use crate::statistics_file::StatisticsFile;

verus! {

/// How often `key` occurs in `keys`.
pub open spec fn count_of(keys: Seq<i128>, key: i128) -> int
    decreases keys.len(),
{
    if keys.len() == 0 {
        0
    } else if keys.last() == key {
        count_of(keys.drop_last(), key) + 1
    } else {
        count_of(keys.drop_last(), key)
    }
}

/// Whether some entry of `entries` carries `key`.
pub open spec fn has_key(entries: Seq<(i128, u64)>, key: i128) -> bool {
    exists|p: int| 0 <= p < entries.len() && (#[trigger] entries[p]).0 == key
}

/// Whether `series` is the histogram of `keys`: one entry per distinct
/// key, in strictly increasing key order, carrying that key's number of
/// occurrences.
pub open spec fn histogram_ok(keys: Seq<i128>, series: Seq<(i128, u64)>) -> bool {
    &&& forall|p: int|
        0 <= p < series.len() ==> (#[trigger] series[p]).1 as int == count_of(keys, series[p].0)
            && series[p].1 > 0
    &&& forall|p1: int, p2: int|
        0 <= p1 < p2 < series.len() ==> (#[trigger] series[p1]).0 < (#[trigger] series[p2]).0
    &&& forall|i: int| 0 <= i < keys.len() ==> has_key(series, #[trigger] keys[i])
}

fn accumulate_counts(keys: &Vec<i128>) -> (r: Vec<(i128, u64)>)
    requires
        keys@.len() <= u64::MAX,
    ensures
        forall|p: int|
            0 <= p < r@.len() ==> (#[trigger] r@[p]).1 as int == count_of(keys@, r@[p].0)
                && r@[p].1 > 0,
        forall|p1: int, p2: int|
            0 <= p1 < r@.len() && 0 <= p2 < r@.len() && p1 != p2 ==> (#[trigger] r@[p1]).0 != (
            #[trigger] r@[p2]).0,
        forall|i: int| 0 <= i < keys@.len() ==> has_key(r@, #[trigger] keys@[i]),
{
    let mut r: Vec<(i128, u64)> = Vec::new();
    let mut i: usize = 0;
    while i < keys.len()
        invariant
            i <= keys@.len(),
            keys@.len() <= u64::MAX,
            forall|p: int|
                0 <= p < r@.len() ==> (#[trigger] r@[p]).1 as int == count_of(
                    keys@.take(i as int),
                    r@[p].0,
                ) && r@[p].1 > 0,
            forall|p: int| 0 <= p < r@.len() ==> (#[trigger] r@[p]).1 <= i,
            forall|p1: int, p2: int|
                0 <= p1 < r@.len() && 0 <= p2 < r@.len() && p1 != p2 ==> (#[trigger] r@[p1]).0 != (
                #[trigger] r@[p2]).0,
            forall|k: int| 0 <= k < i ==> has_key(r@, #[trigger] keys@[k]),
        decreases keys@.len() - i,
    {
        let key = keys[i];
        let mut target: Option<usize> = None;
        let mut pi: usize = 0;
        while pi < r.len() && target.is_none()
            invariant
                pi <= r@.len(),
                match target {
                    Option::Some(t) => t < r@.len() && r@[t as int].0 == key,
                    Option::None => forall|k: int| 0 <= k < pi ==> (#[trigger] r@[k]).0 != key,
                },
            decreases r.len() - pi + (if target is None { 1int } else { 0int }),
        {
            if r[pi].0 == key {
                target = Some(pi);
            } else {
                pi += 1;
            }
        }
        let ghost r0 = r@;
        let ghost prev = keys@.take(i as int);
        let ghost now = keys@.take(i as int + 1);
        proof {
            assert(now.drop_last() =~= prev);
            assert(now.last() == key);
        }
        match target {
            Some(t) => {
                let entry = r.remove(t);
                let bumped = (entry.0, entry.1 + 1);
                let ghost b2 = bumped;
                r.insert(t, bumped);
                proof {
                    assert(r@ =~= r0.update(t as int, b2));
                    assert forall|p: int| 0 <= p < r@.len() implies (#[trigger] r@[p]).1 as int
                        == count_of(now, r@[p].0) && r@[p].1 > 0 by {
                        if p != t {
                            assert(r@[p] == r0[p]);
                            assert(r0[p].0 != key);
                        }
                    }
                }
            },
            None => {
                r.push((key, 1));
                proof {
                    assert forall|p: int| 0 <= p < r@.len() implies (#[trigger] r@[p]).1 as int
                        == count_of(now, r@[p].0) && r@[p].1 > 0 by {
                        if p < r0.len() {
                            assert(r@[p] == r0[p]);
                            assert(r0[p].0 != key);
                        } else {
                            assert(r@[p] == (key, 1u64));
                            assert(count_of(prev, key) == 0) by {
                                assert forall|k: int|
                                    0 <= k < prev.len() implies #[trigger] prev[k] != key by {
                                    assert(prev[k] == keys@[k]);
                                    assert(has_key(r0, keys@[k]));
                                    let p0 = choose|p0: int|
                                        0 <= p0 < r0.len() && (#[trigger] r0[p0]).0 == keys@[k];
                                    assert(r0[p0].0 != key);
                                }
                                lemma_count_of_absent(prev, key);
                            }
                        }
                    }
                }
            },
        }
        proof {
            assert(has_key(r@, key)) by {
                match target {
                    Option::Some(t) => {
                        assert(r@[t as int].0 == key);
                    },
                    Option::None => {
                        assert(r@[r@.len() - 1].0 == key);
                    },
                }
            }
            assert forall|k: int| 0 <= k < i + 1 implies has_key(r@, #[trigger] keys@[k]) by {
                if k < i {
                    assert(has_key(r0, keys@[k]));
                    let p0 = choose|p0: int| 0 <= p0 < r0.len() && (#[trigger] r0[p0]).0 == keys@[k];
                    assert(r@[p0].0 == r0[p0].0);
                }
            }
        }
        i += 1;
    }
    proof {
        assert(keys@.take(keys@.len() as int) =~= keys@);
        assert(i == keys@.len());
    }
    r
}

proof fn lemma_count_of_absent(keys: Seq<i128>, key: i128)
    requires
        forall|k: int| 0 <= k < keys.len() ==> #[trigger] keys[k] != key,
    ensures
        count_of(keys, key) == 0,
    decreases keys.len(),
{
    if keys.len() > 0 {
        assert forall|k: int|
            0 <= k < keys.drop_last().len() implies #[trigger] keys.drop_last()[k] != key by {
            assert(keys.drop_last()[k] == keys[k]);
        }
        lemma_count_of_absent(keys.drop_last(), key);
        assert(keys[keys.len() - 1] != key);
    }
}

/// Builds the histogram of the given keys: one `(key, count)` entry per
/// distinct key, ordered by key, where `count` is the key's number of
/// occurrences.
pub fn histogram_counts(keys: &Vec<i128>) -> (r: Vec<(i128, u64)>)
    requires
        keys@.len() <= u64::MAX,
    ensures
        histogram_ok(keys@, r@),
{
    broadcast use vstd::seq_lib::group_to_multiset_ensures;

    let counts = accumulate_counts(keys);
    let ghost counts0 = counts@;
    let mut rest = counts;
    let mut r: Vec<(i128, u64)> = Vec::new();
    while rest.len() > 0
        invariant
            r@.to_multiset().add(rest@.to_multiset()) =~= counts0.to_multiset(),
            forall|p1: int, p2: int|
                0 <= p1 < p2 < r@.len() ==> (#[trigger] r@[p1]).0 < (#[trigger] r@[p2]).0,
            forall|p1: int, p2: int|
                0 <= p1 < r@.len() && 0 <= p2 < rest@.len() ==> (#[trigger] r@[p1]).0 != (
                #[trigger] rest@[p2]).0,
            forall|p1: int, p2: int|
                0 <= p1 < rest@.len() && 0 <= p2 < rest@.len() && p1 != p2 ==> (
                #[trigger] rest@[p1]).0 != (#[trigger] rest@[p2]).0,
        decreases rest.len(),
    {
        let ghost rest0 = rest@;
        let v = rest.remove(0);
        proof {
            assert(rest@ =~= rest0.remove(0));
            assert(rest@.to_multiset() =~= rest0.to_multiset().remove(v));
            assert(forall|p2: int| 0 <= p2 < rest@.len() ==> #[trigger] rest@[p2] == rest0[p2 + 1]);
        }
        let mut j: usize = 0;
        while j < r.len() && r[j].0 < v.0
            invariant
                j <= r@.len(),
                forall|k: int| 0 <= k < j ==> (#[trigger] r@[k]).0 < v.0,
            decreases r.len() - j,
        {
            j += 1;
        }
        proof {
            if j < r@.len() {
                assert(r@[j as int].0 != v.0);
                assert(r@[j as int].0 > v.0);
            }
        }
        let ghost prefix = r@.take(j as int);
        let ghost suffix = r@.skip(j as int);
        let ghost r0 = r@;
        r.insert(j, v);
        proof {
            assert(r@ =~= prefix + seq![v] + suffix);
            lemma_multiset_commutative(prefix + seq![v], suffix);
            lemma_multiset_commutative(prefix, seq![v]);
            lemma_multiset_commutative(prefix, suffix);
            assert(seq![v].to_multiset() =~= Multiset::<(i128, u64)>::empty().insert(v)) by {
                assert(seq![v].drop_last() =~= Seq::<(i128, u64)>::empty());
            }
            assert(r@.to_multiset() =~= r0.to_multiset().insert(v));
            assert(r@.to_multiset().add(rest@.to_multiset()) =~= counts0.to_multiset());
            assert forall|p1: int, p2: int|
                0 <= p1 < p2 < r@.len() implies (#[trigger] r@[p1]).0 < (#[trigger] r@[p2]).0 by {
                if p1 < j && p2 == j {
                    assert(r@[p1] == r0[p1]);
                } else if p1 == j && p2 > j {
                    assert(r@[p2] == r0[p2 - 1]);
                } else if p1 < j && p2 > j {
                    assert(r@[p1] == r0[p1] && r@[p2] == r0[p2 - 1]);
                }
            }
        }
    }
    proof {
        assert(rest@.to_multiset() =~= Multiset::<(i128, u64)>::empty());
        assert(r@.to_multiset() =~= counts0.to_multiset());
        assert forall|p: int| 0 <= p < r@.len() implies (#[trigger] r@[p]).1 as int == count_of(
            keys@,
            r@[p].0,
        ) && r@[p].1 > 0 by {
            assert(r@.contains(r@[p]));
            assert(r@.to_multiset().count(r@[p]) > 0);
            assert(counts0.contains(r@[p]));
            let q = choose|q: int| 0 <= q < counts0.len() && counts0[q] == r@[p];
        }
        assert forall|i: int| 0 <= i < keys@.len() implies has_key(r@, #[trigger] keys@[i]) by {
            assert(has_key(counts0, keys@[i]));
            let q = choose|q: int| 0 <= q < counts0.len() && (#[trigger] counts0[q]).0 == keys@[i];
            assert(counts0.contains(counts0[q]));
            assert(counts0.to_multiset().count(counts0[q]) > 0);
            assert(r@.contains(counts0[q]));
            let p = choose|p: int| 0 <= p < r@.len() && r@[p] == counts0[q];
            assert(r@[p].0 == keys@[i]);
        }
    }
    r
}

/// A valid measurement's charted value stays within the supported
/// magnitude.
pub proof fn lemma_value_of_range(m: AlignmentStatistics, proj: ValueProjection)
    requires
        m.valid(),
    ensures
        0 <= spec_value_of(m, proj) <= VALUE_LIMIT,
{
    match proj {
        ValueProjection::MemoryMebibytes => {
            vstd::arithmetic::div_mod::lemma_div_pos_is_pos(m.memory as int, 1_048_576);
            vstd::arithmetic::div_mod::lemma_div_is_ordered_by_denominator(
                m.memory as int,
                1,
                1_048_576,
            );
        },
        _ => {},
    }
}

/// The histogram keys of a group's runs: each run's charted value rounded
/// to the nearest whole unit, halves rounding up.
pub open spec fn spec_rounded_values(
    files: Seq<StatisticsFile>,
    proj: ValueProjection,
) -> Seq<i128> {
    files.map_values(
        |f: StatisticsFile|
            (div_round_half_up(spec_value_of(f.statistics, proj) as int, SCALE as int)) as i128,
    )
}

/// One group's histogram series.
#[derive(Debug)]
pub struct HistogramGroup {
    /// The group's name.
    pub name: String,
    /// The group's `(key, count)` series, ordered by key.
    pub series: Vec<(i128, u64)>,
}

/// Builds, for each group, the histogram of its runs' charted values
/// rounded to whole units.
pub fn grouped_histograms(groups: Vec<Group>, proj: &ValueProjection) -> (r: Vec<HistogramGroup>)
    requires
        forall|g: int| 0 <= g < groups@.len() ==> (#[trigger] groups@[g]).files@.len() <= u64::MAX,
        forall|g: int, i: int|
            0 <= g < groups@.len() && 0 <= i < groups@[g].files@.len() ==> (#[trigger] groups@[
                g
            ].files@[i]).statistics.valid(),
    ensures
        r@.len() == groups@.len(),
        forall|g: int| 0 <= g < groups@.len() ==> (#[trigger] r@[g]).name@ == groups@[g].name@,
        forall|g: int|
            0 <= g < groups@.len() ==> histogram_ok(
                spec_rounded_values(groups@[g].files@, *proj),
                (#[trigger] r@[g]).series@,
            ),
{
    let ghost orig = groups@;
    let mut remaining = groups;
    let mut r: Vec<HistogramGroup> = Vec::new();
    let ghost mut done: int = 0;
    proof {
        assert(remaining@ =~= orig.skip(0));
    }
    while remaining.len() > 0
        invariant
            0 <= done <= orig.len(),
            remaining@ == orig.skip(done),
            r@.len() == done,
            forall|g: int| 0 <= g < done ==> (#[trigger] r@[g]).name@ == orig[g].name@,
            forall|g: int|
                0 <= g < done ==> histogram_ok(
                    spec_rounded_values(orig[g].files@, *proj),
                    (#[trigger] r@[g]).series@,
                ),
        decreases remaining.len(),
    {
        proof {
            assert(orig.skip(done)[0] == orig[done]);
        }
        let group = remaining.remove(0);
        proof {
            assert(remaining@ =~= orig.skip(done + 1));
            assert(group == orig[done]);
        }
        let mut keys: Vec<i128> = Vec::new();
        let mut i: usize = 0;
        while i < group.files.len()
            invariant
                i <= group.files@.len(),
                group == orig[done],
                0 <= done < orig.len(),
                keys@ =~= spec_rounded_values(group.files@.take(i as int), *proj),
            decreases group.files@.len() - i,
        {
            proof {
                assert(group.files@[i as int].statistics.valid());
                lemma_value_of_range(group.files@[i as int].statistics, *proj);
            }
            let value = value_of(&group.files[i].statistics, proj);
            keys.push(round_to_integer(value));
            proof {
                assert(keys@ =~= spec_rounded_values(group.files@.take(i as int + 1), *proj));
            }
            i += 1;
        }
        proof {
            assert(group.files@.take(group.files@.len() as int) =~= group.files@);
        }
        let series = histogram_counts(&keys);
        r.push(HistogramGroup { name: group.name, series });
        proof {
            done = done + 1;
        }
    }
    r
}

/// All `(key, count)` entries of all histogram groups, in order.
pub open spec fn all_entries(hs: Seq<HistogramGroup>) -> Seq<(i128, u64)>
    decreases hs.len(),
{
    if hs.len() == 0 {
        Seq::<(i128, u64)>::empty()
    } else {
        all_entries(hs.drop_last()) + hs.last().series@
    }
}

/// The chart bounds of a set of histogram groups: the smallest and
/// largest key and the largest count over all entries (the smallest
/// drawn frequency is zero).
pub fn histogram_bounds(hs: &Vec<HistogramGroup>) -> (r: (i128, i128, u64))
    requires
        hs@.len() > 0,
        forall|g: int| 0 <= g < hs@.len() ==> (#[trigger] hs@[g]).series@.len() > 0,
    ensures
        r.0 == crate::fixed::seq_min(all_entries(hs@).map_values(|e: (i128, u64)| e.0)),
        r.1 == crate::fixed::seq_max(all_entries(hs@).map_values(|e: (i128, u64)| e.0)),
        r.2 as int == crate::fixed::seq_max(
            all_entries(hs@).map_values(|e: (i128, u64)| e.1 as i128),
        ),
{
    let mut keys: Vec<i128> = Vec::new();
    let mut counts: Vec<i128> = Vec::new();
    let mut g: usize = 0;
    while g < hs.len()
        invariant
            g <= hs@.len(),
            keys@ =~= all_entries(hs@.take(g as int)).map_values(|e: (i128, u64)| e.0),
            counts@ =~= all_entries(hs@.take(g as int)).map_values(|e: (i128, u64)| e.1 as i128),
            forall|k: int| 0 <= k < counts@.len() ==> 0 <= #[trigger] counts@[k] <= u64::MAX,
        decreases hs.len() - g,
    {
        let series = &hs[g].series;
        let ghost done_keys = keys@;
        let ghost done_counts = counts@;
        let mut i: usize = 0;
        while i < series.len()
            invariant
                i <= series@.len(),
                series@ == hs@[g as int].series@,
                g < hs@.len(),
                keys@ =~= done_keys + series@.take(i as int).map_values(|e: (i128, u64)| e.0),
                counts@ =~= done_counts + series@.take(i as int).map_values(
                    |e: (i128, u64)| e.1 as i128,
                ),
                forall|k: int| 0 <= k < done_counts.len() ==> 0 <= #[trigger] done_counts[k] <= u64::MAX,
                forall|k: int| 0 <= k < counts@.len() ==> 0 <= #[trigger] counts@[k] <= u64::MAX,
            decreases series@.len() - i,
        {
            let entry = series[i];
            keys.push(entry.0);
            counts.push(entry.1 as i128);
            proof {
                assert(keys@ =~= done_keys + series@.take(i as int + 1).map_values(
                    |e: (i128, u64)| e.0,
                ));
                assert(counts@ =~= done_counts + series@.take(i as int + 1).map_values(
                    |e: (i128, u64)| e.1 as i128,
                ));
            }
            i += 1;
        }
        proof {
            assert(series@.take(series@.len() as int) =~= series@);
            let taken = hs@.take(g as int + 1);
            assert(taken.drop_last() =~= hs@.take(g as int));
            assert(taken.last() == hs@[g as int]);
            assert(keys@ =~= all_entries(taken).map_values(|e: (i128, u64)| e.0));
            assert(counts@ =~= all_entries(taken).map_values(|e: (i128, u64)| e.1 as i128));
        }
        g += 1;
    }
    proof {
        assert(hs@.take(hs@.len() as int) =~= hs@);
        assert(all_entries(hs@).len() > 0) by {
            assert(hs@[hs@.len() - 1].series@.len() > 0);
        }
        crate::fixed::lemma_seq_max_ensures(counts@);
        let mc = crate::fixed::seq_max(counts@);
        let k = choose|k: int| 0 <= k < counts@.len() && counts@[k] == mc;
        assert(0 <= mc <= u64::MAX);
    }
    let min_key = crate::sorting::min_value_of(&keys);
    let max_key = crate::sorting::max_value_of(&keys);
    let max_count = crate::sorting::max_value_of(&counts);
    (min_key, max_key, max_count as u64)
}

} // verus!
