//! The in-memory representation of one benchmark run: identity parameters
//! plus a record of numeric measurements, and the merged summary produced
//! from a set of runs.

use vstd::prelude::*;

use crate::fixed::SCALE;
use crate::fixed::VALUE_LIMIT;
use crate::fixed::valid_value;
use crate::fixed::seq_min;
use crate::fixed::seq_max;
use crate::fixed::seq_sum;
use crate::sorting::sort_values;
use crate::sorting::sorted_of;
use crate::sorting::spec_rank_interpolated;
use crate::decimal::spec_runtime_entry;
use crate::decimal::parse_runtime_entry;
use crate::decimal::lemma_runtime_entry_range;

pub mod alignment_strategies;

use alignment_strategies::AlignmentStrategies;

verus! {

/// The measurement kinds of a run's measurement record.
#[derive(Clone, Copy, Debug, PartialEq, Eq, Structural)]
pub enum MeasurementField {
    Cost,
    OpenedNodes,
    Runtime,
    Memory,
    TemplateSwitchAmount,
}

/// The numeric measurements of one run, each a fixed-point value
/// (see [`crate::fixed`]).
#[derive(Clone, Copy, Debug, PartialEq, Eq, Structural)]
pub struct AlignmentStatistics {
    /// Alignment cost.
    pub cost: i128,
    /// Number of opened search nodes.
    pub opened_nodes: i128,
    /// Runtime in seconds.
    pub runtime: i128,
    /// Memory in bytes.
    pub memory: i128,
    /// Number of template switches.
    pub template_switch_amount: i128,
}

impl AlignmentStatistics {
    /// All measurements are nonnegative and within the supported magnitude.
    pub open spec fn valid(self) -> bool {
        &&& valid_value(self.cost as int)
        &&& valid_value(self.opened_nodes as int)
        &&& valid_value(self.runtime as int)
        &&& valid_value(self.memory as int)
        &&& valid_value(self.template_switch_amount as int)
    }

    /// The all-zero measurement record.
    pub fn zero() -> (r: Self)
        ensures
            r == (AlignmentStatistics {
                cost: 0,
                opened_nodes: 0,
                runtime: 0,
                memory: 0,
                template_switch_amount: 0,
            }),
    {
        AlignmentStatistics { cost: 0, opened_nodes: 0, runtime: 0, memory: 0, template_switch_amount: 0 }
    }
}

/// The mathematical content of a run's identity parameters.
pub struct ParametersView {
    pub test_sequence_name: Seq<char>,
    pub aligner: Seq<char>,
    pub length: int,
    pub cost: int,
    pub seed: int,
    pub alignment_config: Seq<char>,
    pub runtime_raw: Seq<Seq<char>>,
    pub memory_raw: int,
    pub strategies_node_ord: Seq<char>,
    pub strategies_ts_min_length: Seq<char>,
}

/// The identity parameters of one run. They decide grouping and merge-key
/// equality; only the measurements are aggregated.
#[derive(Debug)]
pub struct AlignmentParameters {
    /// Name of the test sequence the run aligned.
    pub test_sequence_name: String,
    /// Name of the aligner that produced the run.
    pub aligner: String,
    /// Length of the test sequence.
    pub length: usize,
    /// Alignment cost copied out of the measurements after loading.
    pub cost: u64,
    /// Random seed of the run.
    pub seed: u64,
    /// Name of the alignment configuration.
    pub alignment_config: String,
    /// Raw runtime strings (`m:s` or `h:m:s`), as measured by outside tools.
    pub runtime_raw: Vec<String>,
    /// Raw peak memory in kibibytes, as measured by outside tools.
    pub memory_raw: u64,
    /// The run's strategy selection.
    pub strategies: AlignmentStrategies,
}

impl View for AlignmentParameters {
    type V = ParametersView;

    open spec fn view(&self) -> ParametersView {
        ParametersView {
            test_sequence_name: self.test_sequence_name@,
            aligner: self.aligner@,
            length: self.length as int,
            cost: self.cost as int,
            seed: self.seed as int,
            alignment_config: self.alignment_config@,
            runtime_raw: self.runtime_raw.deep_view(),
            memory_raw: self.memory_raw as int,
            strategies_node_ord: self.strategies.node_ord@,
            strategies_ts_min_length: self.strategies.ts_min_length@,
        }
    }
}

fn clone_string_vec(v: &Vec<String>) -> (r: Vec<String>)
    ensures
        r@ == v@,
{
    let mut r: Vec<String> = Vec::new();
    let mut i: usize = 0;
    while i < v.len()
        invariant
            i <= v.len(),
            r@ =~= v@.take(i as int),
        decreases v.len() - i,
    {
        r.push(v[i].clone());
        proof {
            assert(r@ =~= v@.take(i as int + 1));
        }
        i += 1;
    }
    proof {
        assert(v@.take(v@.len() as int) =~= v@);
    }
    r
}

impl Clone for AlignmentParameters {
    /// The clone carries the same mathematical content as the original.
    fn clone(&self) -> (r: Self)
        ensures
            r@ == self@,
    {
        AlignmentParameters {
            test_sequence_name: self.test_sequence_name.clone(),
            aligner: self.aligner.clone(),
            length: self.length,
            cost: self.cost,
            seed: self.seed,
            alignment_config: self.alignment_config.clone(),
            runtime_raw: clone_string_vec(&self.runtime_raw),
            memory_raw: self.memory_raw,
            strategies: self.strategies.clone(),
        }
    }
}

/// One benchmark run: measurements plus identity parameters.
#[derive(Debug)]
pub struct StatisticsFile {
    /// The run's numeric measurements.
    pub statistics: AlignmentStatistics,
    /// The run's identity parameters.
    pub parameters: AlignmentParameters,
}

impl Clone for StatisticsFile {
    /// The clone carries the same measurements and the same parameter
    /// content as the original.
    fn clone(&self) -> (r: Self)
        ensures
            r.statistics == self.statistics,
            r.parameters@ == self.parameters@,
    {
        StatisticsFile { statistics: self.statistics, parameters: self.parameters.clone() }
    }
}

/// The value of one measurement kind in a measurement record.
pub open spec fn spec_field(m: AlignmentStatistics, f: MeasurementField) -> i128 {
    match f {
        MeasurementField::Cost => m.cost,
        MeasurementField::OpenedNodes => m.opened_nodes,
        MeasurementField::Runtime => m.runtime,
        MeasurementField::Memory => m.memory,
        MeasurementField::TemplateSwitchAmount => m.template_switch_amount,
    }
}

/// One measurement kind's values across a sequence of measurement records.
pub open spec fn field_values(s: Seq<AlignmentStatistics>, f: MeasurementField) -> Seq<i128> {
    s.map_values(|m: AlignmentStatistics| spec_field(m, f))
}

/// The value of one measurement kind in a measurement record.
pub fn field_of(m: &AlignmentStatistics, f: MeasurementField) -> (r: i128)
    ensures
        r == spec_field(*m, f),
{
    match f {
        MeasurementField::Cost => m.cost,
        MeasurementField::OpenedNodes => m.opened_nodes,
        MeasurementField::Runtime => m.runtime,
        MeasurementField::Memory => m.memory,
        MeasurementField::TemplateSwitchAmount => m.template_switch_amount,
    }
}

/// One measurement kind's values across a vector of measurement records.
pub fn extract_field(s: &Vec<AlignmentStatistics>, f: MeasurementField) -> (r: Vec<i128>)
    ensures
        r@ == field_values(s@, f),
{
    let mut r: Vec<i128> = Vec::new();
    let mut i: usize = 0;
    while i < s.len()
        invariant
            i <= s.len(),
            r@ =~= field_values(s@.take(i as int), f),
        decreases s.len() - i,
    {
        r.push(field_of(&s[i], f));
        proof {
            assert(r@ =~= field_values(s@.take(i as int + 1), f));
        }
        i += 1;
    }
    proof {
        assert(s@.take(s@.len() as int) =~= s@);
    }
    r
}

impl AlignmentStatistics {
    /// Whether all measurements are nonnegative and within the supported
    /// magnitude.
    pub fn is_valid(&self) -> (r: bool)
        ensures
            r == self.valid(),
    {
        0 <= self.cost && self.cost <= VALUE_LIMIT && 0 <= self.opened_nodes && self.opened_nodes
            <= VALUE_LIMIT && 0 <= self.runtime && self.runtime <= VALUE_LIMIT && 0 <= self.memory
            && self.memory <= VALUE_LIMIT && 0 <= self.template_switch_amount
            && self.template_switch_amount <= VALUE_LIMIT
    }

    /// The identity record for the elementwise minimum: every measurement
    /// at the largest representable value.
    pub fn max_value() -> (r: Self)
        ensures
            forall|f: MeasurementField| #[trigger] spec_field(r, f) == i128::MAX,
    {
        AlignmentStatistics {
            cost: i128::MAX,
            opened_nodes: i128::MAX,
            runtime: i128::MAX,
            memory: i128::MAX,
            template_switch_amount: i128::MAX,
        }
    }

    /// The identity record for the elementwise maximum: every measurement
    /// at the smallest representable value.
    pub fn min_value() -> (r: Self)
        ensures
            forall|f: MeasurementField| #[trigger] spec_field(r, f) == i128::MIN,
    {
        AlignmentStatistics {
            cost: i128::MIN,
            opened_nodes: i128::MIN,
            runtime: i128::MIN,
            memory: i128::MIN,
            template_switch_amount: i128::MIN,
        }
    }

    /// The elementwise minimum of two measurement records.
    pub fn piecewise_min(&self, other: &Self) -> (r: Self)
        ensures
            forall|f: MeasurementField| #[trigger] spec_field(r, f) == (if spec_field(*self, f)
                <= spec_field(*other, f) {
                spec_field(*self, f)
            } else {
                spec_field(*other, f)
            }),
    {
        AlignmentStatistics {
            cost: if self.cost <= other.cost { self.cost } else { other.cost },
            opened_nodes: if self.opened_nodes <= other.opened_nodes { self.opened_nodes } else { other.opened_nodes },
            runtime: if self.runtime <= other.runtime { self.runtime } else { other.runtime },
            memory: if self.memory <= other.memory { self.memory } else { other.memory },
            template_switch_amount: if self.template_switch_amount <= other.template_switch_amount { self.template_switch_amount } else { other.template_switch_amount },
        }
    }

    /// The elementwise maximum of two measurement records.
    pub fn piecewise_max(&self, other: &Self) -> (r: Self)
        ensures
            forall|f: MeasurementField| #[trigger] spec_field(r, f) == (if spec_field(*self, f)
                >= spec_field(*other, f) {
                spec_field(*self, f)
            } else {
                spec_field(*other, f)
            }),
    {
        AlignmentStatistics {
            cost: if self.cost >= other.cost { self.cost } else { other.cost },
            opened_nodes: if self.opened_nodes >= other.opened_nodes { self.opened_nodes } else { other.opened_nodes },
            runtime: if self.runtime >= other.runtime { self.runtime } else { other.runtime },
            memory: if self.memory >= other.memory { self.memory } else { other.memory },
            template_switch_amount: if self.template_switch_amount >= other.template_switch_amount { self.template_switch_amount } else { other.template_switch_amount },
        }
    }

    /// The elementwise sum of two measurement records.
    pub fn piecewise_add(&self, other: &Self) -> (r: Self)
        requires
            forall|f: MeasurementField| i128::MIN <= #[trigger] spec_field(*self, f) + spec_field(
                *other,
                f,
            ) <= i128::MAX,
        ensures
            forall|f: MeasurementField| #[trigger] spec_field(r, f) == spec_field(*self, f)
                + spec_field(*other, f),
    {
        proof {
            assert(spec_field(*self, MeasurementField::Cost) == self.cost);
            assert(spec_field(*self, MeasurementField::OpenedNodes) == self.opened_nodes);
            assert(spec_field(*self, MeasurementField::Runtime) == self.runtime);
            assert(spec_field(*self, MeasurementField::Memory) == self.memory);
            assert(spec_field(*self, MeasurementField::TemplateSwitchAmount)
                == self.template_switch_amount);
        }
        AlignmentStatistics {
            cost: self.cost + other.cost,
            opened_nodes: self.opened_nodes + other.opened_nodes,
            runtime: self.runtime + other.runtime,
            memory: self.memory + other.memory,
            template_switch_amount: self.template_switch_amount + other.template_switch_amount,
        }
    }

    /// The elementwise quotient of a nonnegative measurement record by a
    /// positive divisor, rounding down.
    pub fn piecewise_div(&self, divisor: i128) -> (r: Self)
        requires
            divisor > 0,
            forall|f: MeasurementField| #[trigger] spec_field(*self, f) >= 0,
        ensures
            forall|f: MeasurementField| #[trigger] spec_field(r, f) == spec_field(*self, f) as int
                / divisor as int,
    {
        proof {
            assert(spec_field(*self, MeasurementField::Cost) == self.cost);
            assert(spec_field(*self, MeasurementField::OpenedNodes) == self.opened_nodes);
            assert(spec_field(*self, MeasurementField::Runtime) == self.runtime);
            assert(spec_field(*self, MeasurementField::Memory) == self.memory);
            assert(spec_field(*self, MeasurementField::TemplateSwitchAmount)
                == self.template_switch_amount);
        }
        AlignmentStatistics {
            cost: self.cost / divisor,
            opened_nodes: self.opened_nodes / divisor,
            runtime: self.runtime / divisor,
            memory: self.memory / divisor,
            template_switch_amount: self.template_switch_amount / divisor,
        }
    }

    /// The elementwise median of a nonempty vector of valid measurement
    /// records: for each measurement kind independently, the value of the
    /// kind's sorted distribution at rank `0.5 * (n - 1)`, linearly
    /// interpolated between adjacent order statistics.
    pub fn piecewise_median(statistics: &Vec<AlignmentStatistics>) -> (r: Self)
        requires
            statistics@.len() > 0,
            forall|i: int| 0 <= i < statistics@.len() ==> (#[trigger] statistics@[i]).valid(),
        ensures
            forall|f: MeasurementField| #[trigger] spec_field(r, f) as int == spec_rank_interpolated(
                sorted_of(field_values(statistics@, f)),
                1,
                2,
            ),
    {
        let r = AlignmentStatistics {
            cost: median_of_field(statistics, MeasurementField::Cost),
            opened_nodes: median_of_field(statistics, MeasurementField::OpenedNodes),
            runtime: median_of_field(statistics, MeasurementField::Runtime),
            memory: median_of_field(statistics, MeasurementField::Memory),
            template_switch_amount: median_of_field(
                statistics,
                MeasurementField::TemplateSwitchAmount,
            ),
        };
        proof {
            assert forall|f: MeasurementField| #[trigger] spec_field(r, f) as int
                == spec_rank_interpolated(sorted_of(field_values(statistics@, f)), 1, 2) by {
                match f {
                    MeasurementField::Cost => {},
                    MeasurementField::OpenedNodes => {},
                    MeasurementField::Runtime => {},
                    MeasurementField::Memory => {},
                    MeasurementField::TemplateSwitchAmount => {},
                }
            }
        }
        r
    }
}

/// Why loading a run's record failed.
#[derive(Clone, Copy, Debug, PartialEq, Eq, Structural)]
pub enum PostProcessingError {
    /// A raw runtime entry is not of the `m:s` / `h:m:s` decimal shape.
    MalformedRuntime,
    /// The summed runtime exceeds the supported magnitude.
    RuntimeOutOfRange,
    /// The raw memory exceeds the supported magnitude.
    MemoryOutOfRange,
}

/// The summed fixed-point seconds of a list of raw runtime entries;
/// `None` when any entry is malformed.
pub open spec fn spec_runtime_total(entries: Seq<Seq<char>>) -> Option<int>
    decreases entries.len(),
{
    if entries.len() == 0 {
        Some(0)
    } else {
        match (spec_runtime_total(entries.drop_last()), spec_runtime_entry(entries.last())) {
            (Some(t), Some(v)) => Some(t + v),
            _ => None,
        }
    }
}

/// A malformed entry makes the whole runtime total malformed.
proof fn lemma_runtime_total_none(entries: Seq<Seq<char>>, k: int)
    requires
        0 <= k < entries.len(),
        spec_runtime_entry(entries[k]) is None,
    ensures
        spec_runtime_total(entries) is None,
    decreases entries.len(),
{
    if k < entries.len() - 1 {
        assert(entries.drop_last()[k] == entries[k]);
        lemma_runtime_total_none(entries.drop_last(), k);
    }
}

/// When every entry is well formed, the total is defined and every prefix
/// total is at most the full total.
proof fn lemma_runtime_total_some(entries: Seq<Seq<char>>)
    requires
        forall|i: int| 0 <= i < entries.len() ==> spec_runtime_entry(#[trigger] entries[i]) is Some,
    ensures
        spec_runtime_total(entries) is Some,
        forall|k: int|
            0 <= k <= entries.len() ==> spec_runtime_total(#[trigger] entries.take(k)) is Some
                && spec_runtime_total(entries.take(k))->Some_0 <= spec_runtime_total(
                entries,
            )->Some_0,
    decreases entries.len(),
{
    if entries.len() == 0 {
        assert(entries.take(0) =~= entries);
    } else {
        assert(forall|i: int|
            0 <= i < entries.drop_last().len() ==> #[trigger] entries.drop_last()[i]
                == entries[i]);
        lemma_runtime_total_some(entries.drop_last());
        lemma_runtime_entry_range(entries.last());
        assert forall|k: int|
            0 <= k <= entries.len() implies spec_runtime_total(#[trigger] entries.take(k)) is Some
            && spec_runtime_total(entries.take(k))->Some_0 <= spec_runtime_total(
            entries,
        )->Some_0 by {
            if k <= entries.len() - 1 {
                assert(entries.take(k) =~= entries.drop_last().take(k));
            } else {
                assert(entries.take(k) =~= entries);
            }
        }
    }
}

impl StatisticsFile {
    /// Finishes loading a freshly decoded run: copies the cost into the
    /// identity parameters as whole units, sums the raw runtime entries
    /// into fixed-point seconds, and scales the raw memory from kibibytes
    /// to bytes. Malformed or out-of-range raw data is reported as an
    /// error, never partially applied.
    pub fn deserialisation_post_processing(self) -> (r: Result<StatisticsFile, PostProcessingError>)
        requires
            self.statistics.valid(),
        ensures
            match r {
                Ok(out) => {
                    &&& spec_runtime_total(self.parameters.runtime_raw.deep_view()) == Some(
                        out.statistics.runtime as int,
                    )
                    &&& 0 <= out.statistics.runtime <= VALUE_LIMIT
                    &&& (self.parameters.memory_raw as int) * 1024 * (SCALE as int)
                        <= VALUE_LIMIT as int
                    &&& out.statistics.memory as int == (self.parameters.memory_raw as int) * 1024
                        * (SCALE as int)
                    &&& out.parameters.cost as int == self.statistics.cost as int / (SCALE as int)
                    &&& out.statistics.cost == self.statistics.cost
                    &&& out.statistics.opened_nodes == self.statistics.opened_nodes
                    &&& out.statistics.template_switch_amount
                        == self.statistics.template_switch_amount
                    &&& out.statistics.valid()
                    &&& out.parameters@ == (ParametersView {
                        cost: self.statistics.cost as int / (SCALE as int),
                        ..self.parameters@
                    })
                },
                Err(e) => {
                    ||| (e == PostProcessingError::MalformedRuntime && spec_runtime_total(
                        self.parameters.runtime_raw.deep_view(),
                    ) is None)
                    ||| (e == PostProcessingError::RuntimeOutOfRange && spec_runtime_total(
                        self.parameters.runtime_raw.deep_view(),
                    ) is Some && spec_runtime_total(self.parameters.runtime_raw.deep_view())->Some_0
                        > VALUE_LIMIT as int)
                    ||| (e == PostProcessingError::MemoryOutOfRange && (
                    self.parameters.memory_raw as int) * 1024 * (SCALE as int) > VALUE_LIMIT as int)
                },
            },
    {
        let ghost entry_views = self.parameters.runtime_raw.deep_view();
        let entry_count = self.parameters.runtime_raw.len();
        let mut i: usize = 0;
        while i < entry_count
            invariant
                i <= entry_count,
                entry_count == self.parameters.runtime_raw@.len(),
                forall|k: int|
                    0 <= k < i ==> spec_runtime_entry(#[trigger] entry_views[k]) is Some,
            decreases entry_count - i,
        {
            proof {
                assert(entry_views[i as int] == self.parameters.runtime_raw@[i as int]@);
            }
            match parse_runtime_entry(self.parameters.runtime_raw[i].as_str()) {
                Some(_) => {},
                None => {
                    proof {
                        lemma_runtime_total_none(entry_views, i as int);
                    }
                    return Err(PostProcessingError::MalformedRuntime);
                },
            }
            i += 1;
        }
        proof {
            lemma_runtime_total_some(entry_views);
        }
        let mut total: i128 = 0;
        i = 0;
        while i < entry_count
            invariant
                i <= entry_count,
                entry_count == self.parameters.runtime_raw@.len(),
                forall|k: int|
                    0 <= k < entry_count ==> spec_runtime_entry(#[trigger] entry_views[k]) is Some,
                spec_runtime_total(entry_views) is Some,
                spec_runtime_total(entry_views.take(i as int)) == Some(total as int),
                0 <= total <= VALUE_LIMIT,
                spec_runtime_total(entry_views)->Some_0 >= total,
            decreases entry_count - i,
        {
            proof {
                assert(entry_views[i as int] == self.parameters.runtime_raw@[i as int]@);
            }
            let v = match parse_runtime_entry(self.parameters.runtime_raw[i].as_str()) {
                Some(v) => v,
                None => {
                    proof {
                        assert(false);
                    }
                    0
                },
            };
            proof {
                assert(entry_views.take(i as int + 1).drop_last() =~= entry_views.take(i as int));
                assert(entry_views.take(i as int + 1).last() == entry_views[i as int]);
            }
            total = total + v;
            if total > VALUE_LIMIT {
                proof {
                    lemma_runtime_total_some(entry_views);
                    assert(spec_runtime_total(entry_views.take(i as int + 1))->Some_0
                        <= spec_runtime_total(entry_views)->Some_0);
                }
                return Err(PostProcessingError::RuntimeOutOfRange);
            }
            i += 1;
        }
        proof {
            assert(entry_views.take(entry_count as int) =~= entry_views);
        }
        let memory_scaled = (self.parameters.memory_raw as i128) * 1024 * SCALE;
        if memory_scaled > VALUE_LIMIT {
            return Err(PostProcessingError::MemoryOutOfRange);
        }
        let cost_whole = (self.statistics.cost / SCALE) as u64;
        let out = StatisticsFile {
            statistics: AlignmentStatistics {
                runtime: total,
                memory: memory_scaled,
                ..self.statistics
            },
            parameters: AlignmentParameters { cost: cost_whole, ..self.parameters },
        };
        Ok(out)
    }
}

/// Largest number of runs one merged summary may combine; keeps the
/// elementwise sums used for the mean within the value representation.
pub const MAX_MERGE_COUNT: usize = 1_000_000_000;

/// The merged summary of a nonempty set of runs sharing one merge key and
/// bucket: elementwise minimum, maximum, mean and median of their
/// measurements, the raw measurement records themselves, and a
/// representative key position.
#[derive(Debug)]
pub struct MergedStatisticsFile {
    /// Elementwise minimum of the contained measurements.
    pub min_statistics: AlignmentStatistics,
    /// Elementwise maximum of the contained measurements.
    pub max_statistics: AlignmentStatistics,
    /// Elementwise mean of the contained measurements, rounded down.
    pub mean_statistics: AlignmentStatistics,
    /// Elementwise median of the contained measurements.
    pub median_statistics: AlignmentStatistics,
    /// The raw measurement records of the merged runs, in input order;
    /// kept for the quartile pipeline.
    pub contained_statistics: Vec<AlignmentStatistics>,
    /// The representative key position of the summary.
    pub key: i128,
}

/// Whether `r` is the summary of the measurement records `stats` at key
/// position `key`: it retains exactly `stats`, and its aggregates are the
/// elementwise minimum, maximum, mean (rounded down) and rank-interpolated
/// median of `stats`.
pub open spec fn is_summary_of(
    r: MergedStatisticsFile,
    stats: Seq<AlignmentStatistics>,
    key: int,
) -> bool {
    &&& r.key as int == key
    &&& r.contained_statistics@ == stats
    &&& stats.len() > 0
    &&& forall|f: MeasurementField| #[trigger] spec_field(r.min_statistics, f) == seq_min(
        field_values(stats, f),
    )
    &&& forall|f: MeasurementField| #[trigger] spec_field(r.max_statistics, f) == seq_max(
        field_values(stats, f),
    )
    &&& forall|f: MeasurementField| #[trigger] spec_field(r.mean_statistics, f) as int == seq_sum(
        field_values(stats, f),
    ) / (stats.len() as int)
    &&& forall|f: MeasurementField| #[trigger] spec_field(r.median_statistics, f) as int
        == spec_rank_interpolated(sorted_of(field_values(stats, f)), 1, 2)
}

impl MergedStatisticsFile {
    /// Merges the runs' measurements into one summary at key position
    /// `key`: the elementwise combinators of [`AlignmentStatistics`] over
    /// all the runs, which are retained in order.
    pub fn from_statistics_files(key: i128, statistics_files: Vec<StatisticsFile>) -> (r: Self)
        requires
            statistics_files@.len() > 0,
            statistics_files@.len() <= MAX_MERGE_COUNT,
            forall|i: int|
                0 <= i < statistics_files@.len() ==> (#[trigger] statistics_files@[i]).statistics.valid(),
        ensures
            is_summary_of(
                r,
                statistics_files@.map_values(|f: StatisticsFile| f.statistics),
                key as int,
            ),
    {
        let ghost stats_seq = statistics_files@.map_values(|f: StatisticsFile| f.statistics);
        let mut contained: Vec<AlignmentStatistics> = Vec::new();
        let mut i: usize = 0;
        while i < statistics_files.len()
            invariant
                i <= statistics_files@.len(),
                contained@ =~= stats_seq.take(i as int),
            decreases statistics_files.len() - i,
        {
            contained.push(statistics_files[i].statistics);
            proof {
                assert(contained@ =~= stats_seq.take(i as int + 1));
            }
            i += 1;
        }
        proof {
            assert(stats_seq.take(stats_seq.len() as int) =~= stats_seq);
            assert(contained@ == stats_seq);
            assert(forall|j: int|
                0 <= j < contained@.len() ==> (#[trigger] contained@[j]).valid());
        }
        let median_statistics = AlignmentStatistics::piecewise_median(&contained);
        let mut min_statistics = AlignmentStatistics::max_value();
        let mut max_statistics = AlignmentStatistics::min_value();
        let mut mean_acc = AlignmentStatistics::zero();
        let n = contained.len();
        let mut j: usize = 0;
        while j < n
            invariant
                j <= n,
                n == contained@.len(),
                contained@ == stats_seq,
                n <= MAX_MERGE_COUNT,
                forall|jj: int| 0 <= jj < n ==> (#[trigger] contained@[jj]).valid(),
                forall|f: MeasurementField| #[trigger] spec_field(min_statistics, f) == (if j == 0 {
                    i128::MAX as i128
                } else {
                    seq_min(field_values(stats_seq.take(j as int), f))
                }),
                forall|f: MeasurementField| #[trigger] spec_field(max_statistics, f) == (if j == 0 {
                    i128::MIN as i128
                } else {
                    seq_max(field_values(stats_seq.take(j as int), f))
                }),
                forall|f: MeasurementField| #[trigger] spec_field(mean_acc, f) as int == seq_sum(
                    field_values(stats_seq.take(j as int), f),
                ),
                forall|f: MeasurementField|
                    0 <= #[trigger] spec_field(mean_acc, f) as int <= (j as int) * (
                    VALUE_LIMIT as int),
            decreases n - j,
        {
            let current = contained[j];
            proof {
                assert(current.valid());
                assert((j as int) * (VALUE_LIMIT as int) <= 1_000_000_000int * (
                VALUE_LIMIT as int)) by (nonlinear_arith)
                    requires 0 <= j <= 1_000_000_000int,
                ;
                assert(((j as int) + 1) * (VALUE_LIMIT as int) == (j as int) * (VALUE_LIMIT as int)
                    + VALUE_LIMIT as int) by (nonlinear_arith);
            }
            let new_min = min_statistics.piecewise_min(&current);
            let new_max = max_statistics.piecewise_max(&current);
            let new_mean = mean_acc.piecewise_add(&current);
            proof {
                assert forall|f: MeasurementField| #[trigger] spec_field(new_min, f) == seq_min(
                    field_values(stats_seq.take(j as int + 1), f),
                ) by {
                    let fv1 = field_values(stats_seq.take(j as int + 1), f);
                    assert(fv1.drop_last() =~= field_values(stats_seq.take(j as int), f));
                    assert(fv1.last() == spec_field(stats_seq[j as int], f));
                    assert(0 <= spec_field(current, f) <= VALUE_LIMIT);
                    if j > 0 {
                        crate::fixed::lemma_seq_min_ensures(fv1.drop_last());
                    }
                }
                assert forall|f: MeasurementField| #[trigger] spec_field(new_max, f) == seq_max(
                    field_values(stats_seq.take(j as int + 1), f),
                ) by {
                    let fv1 = field_values(stats_seq.take(j as int + 1), f);
                    assert(fv1.drop_last() =~= field_values(stats_seq.take(j as int), f));
                    assert(fv1.last() == spec_field(stats_seq[j as int], f));
                    assert(0 <= spec_field(current, f) <= VALUE_LIMIT);
                    if j > 0 {
                        crate::fixed::lemma_seq_max_ensures(fv1.drop_last());
                    }
                }
                assert forall|f: MeasurementField| #[trigger] spec_field(new_mean, f) as int
                    == seq_sum(field_values(stats_seq.take(j as int + 1), f)) by {
                    let fv1 = field_values(stats_seq.take(j as int + 1), f);
                    assert(fv1.drop_last() =~= field_values(stats_seq.take(j as int), f));
                    assert(fv1.last() == spec_field(stats_seq[j as int], f));
                }
            }
            min_statistics = new_min;
            max_statistics = new_max;
            mean_acc = new_mean;
            j += 1;
        }
        proof {
            assert(stats_seq.take(n as int) =~= stats_seq);
        }
        let mean_statistics = mean_acc.piecewise_div(n as i128);
        MergedStatisticsFile {
            min_statistics,
            max_statistics,
            mean_statistics,
            median_statistics,
            contained_statistics: contained,
            key,
        }
    }
}

/// A valid measurement record has every measurement in the supported
/// range.
pub proof fn lemma_field_valid(m: AlignmentStatistics, f: MeasurementField)
    requires
        m.valid(),
    ensures
        0 <= spec_field(m, f) <= VALUE_LIMIT,
{
}

/// The summary of valid measurement records is itself made of valid
/// records: the elementwise minimum, maximum, mean and median all stay
/// within the supported measurement range, and the retained records are
/// the (valid) input records.
pub proof fn lemma_summary_of_valid_records(
    m: MergedStatisticsFile,
    stats: Seq<AlignmentStatistics>,
    key: int,
)
    requires
        is_summary_of(m, stats, key),
        forall|i: int| 0 <= i < stats.len() ==> (#[trigger] stats[i]).valid(),
    ensures
        m.min_statistics.valid(),
        m.max_statistics.valid(),
        m.mean_statistics.valid(),
        m.median_statistics.valid(),
        forall|i: int|
            0 <= i < m.contained_statistics@.len() ==> (#[trigger] m.contained_statistics@[i]).valid(),
{
    let n = stats.len() as int;
    assert forall|f: MeasurementField|
        0 <= #[trigger] spec_field(m.min_statistics, f) <= VALUE_LIMIT by {
        let fv = field_values(stats, f);
        crate::fixed::lemma_seq_min_ensures(fv);
        let j = choose|j: int| 0 <= j < fv.len() && fv[j] == seq_min(fv);
        assert(fv[j] == spec_field(stats[j], f));
        lemma_field_valid(stats[j], f);
    }
    assert forall|f: MeasurementField|
        0 <= #[trigger] spec_field(m.max_statistics, f) <= VALUE_LIMIT by {
        let fv = field_values(stats, f);
        crate::fixed::lemma_seq_max_ensures(fv);
        let j = choose|j: int| 0 <= j < fv.len() && fv[j] == seq_max(fv);
        assert(fv[j] == spec_field(stats[j], f));
        lemma_field_valid(stats[j], f);
    }
    assert forall|f: MeasurementField|
        0 <= #[trigger] spec_field(m.mean_statistics, f) <= VALUE_LIMIT by {
        let fv = field_values(stats, f);
        assert forall|i: int| 0 <= i < fv.len() implies 0 <= #[trigger] fv[i] <= VALUE_LIMIT by {
            assert(fv[i] == spec_field(stats[i], f));
            lemma_field_valid(stats[i], f);
        }
        crate::fixed::lemma_seq_sum_bounds(fv, 0, VALUE_LIMIT as int);
        assert(n * 0 == 0) by (nonlinear_arith);
        vstd::arithmetic::div_mod::lemma_div_pos_is_pos(seq_sum(fv), n);
        vstd::arithmetic::div_mod::lemma_div_is_ordered(
            seq_sum(fv),
            n * (VALUE_LIMIT as int),
            n,
        );
        vstd::arithmetic::div_mod::lemma_div_multiples_vanish(VALUE_LIMIT as int, n);
    }
    assert forall|f: MeasurementField|
        0 <= #[trigger] spec_field(m.median_statistics, f) <= VALUE_LIMIT by {
        let fv = field_values(stats, f);
        let leq = |a: i128, b: i128| a <= b;
        fv.lemma_sort_by_ensures(leq);
        assert(crate::sorting::sorted(fv.sort_by(leq))) by {
            assert(forall|i: int, j: int|
                0 <= i < j < fv.sort_by(leq).len() ==> leq(
                    #[trigger] fv.sort_by(leq)[i],
                    #[trigger] fv.sort_by(leq)[j],
                ));
        }
        crate::sorting::lemma_sorted_of_is(fv, fv.sort_by(leq));
        let sv = sorted_of(fv);
        assert(sv.len() == fv.len()) by {
            broadcast use vstd::seq_lib::group_to_multiset_ensures;

            assert(sv.to_multiset().len() == sv.len());
            assert(fv.to_multiset().len() == fv.len());
        }
        assert forall|i: int| 0 <= i < sv.len() implies 0 <= #[trigger] sv[i] <= VALUE_LIMIT by {
            broadcast use vstd::seq_lib::group_to_multiset_ensures;

            assert(sv.to_multiset().count(sv[i]) > 0);
            assert(fv.contains(sv[i]));
            let j = choose|j: int| 0 <= j < fv.len() && fv[j] == sv[i];
            assert(fv[j] == spec_field(stats[j], f));
            lemma_field_valid(stats[j], f);
        }
        let pos = (sv.len() - 1) as int * 1;
        let lo = pos / 2;
        let rem = pos % 2;
        assert(0 <= lo < sv.len()) by {
            vstd::arithmetic::div_mod::lemma_div_pos_is_pos(pos, 2);
            vstd::arithmetic::div_mod::lemma_div_is_ordered(pos, 2 * (sv.len() - 1) as int, 2);
            vstd::arithmetic::div_mod::lemma_div_multiples_vanish((sv.len() - 1) as int, 2);
        }
        if rem != 0 && lo + 1 < sv.len() {
            let a = sv[lo];
            let b = sv[lo + 1];
            assert(a <= b);
            assert(0 <= (b - a) * rem) by (nonlinear_arith)
                requires b - a >= 0, rem >= 0,
            ;
            assert((b - a) * rem <= (b - a) * 2) by (nonlinear_arith)
                requires b - a >= 0, 0 <= rem <= 2,
            ;
            vstd::arithmetic::div_mod::lemma_div_pos_is_pos((b - a) * rem, 2);
            vstd::arithmetic::div_mod::lemma_div_is_ordered((b - a) * rem, (b - a) * 2, 2);
            assert(((b - a) as int * 2) / 2 == b - a) by {
                vstd::arithmetic::div_mod::lemma_div_multiples_vanish((b - a) as int, 2);
            }
        }
    }
    assert(m.min_statistics.valid()) by {
        lemma_fields_in_range_is_valid(m.min_statistics);
    }
    assert(m.max_statistics.valid()) by {
        lemma_fields_in_range_is_valid(m.max_statistics);
    }
    assert(m.mean_statistics.valid()) by {
        lemma_fields_in_range_is_valid(m.mean_statistics);
    }
    assert(m.median_statistics.valid()) by {
        lemma_fields_in_range_is_valid(m.median_statistics);
    }
}

proof fn lemma_fields_in_range_is_valid(s: AlignmentStatistics)
    requires
        forall|f: MeasurementField| 0 <= #[trigger] spec_field(s, f) <= VALUE_LIMIT,
    ensures
        s.valid(),
{
    assert(spec_field(s, MeasurementField::Cost) == s.cost);
    assert(spec_field(s, MeasurementField::OpenedNodes) == s.opened_nodes);
    assert(spec_field(s, MeasurementField::Runtime) == s.runtime);
    assert(spec_field(s, MeasurementField::Memory) == s.memory);
    assert(spec_field(s, MeasurementField::TemplateSwitchAmount) == s.template_switch_amount);
}

fn median_of_field(statistics: &Vec<AlignmentStatistics>, f: MeasurementField) -> (r: i128)
    requires
        statistics@.len() > 0,
        forall|i: int| 0 <= i < statistics@.len() ==> (#[trigger] statistics@[i]).valid(),
    ensures
        r as int == spec_rank_interpolated(sorted_of(field_values(statistics@, f)), 1, 2),
{
    let values = extract_field(statistics, f);
    let sorted_values = sort_values(&values);
    let n = sorted_values.len();
    proof {
        let sv = sorted_of(field_values(statistics@, f));
        assert(sv == sorted_values@);
        assert(sv.len() == statistics@.len());
        assert forall|i: int| 0 <= i < sv.len() implies 0 <= #[trigger] sv[i] <= VALUE_LIMIT by {
            broadcast use vstd::seq_lib::group_to_multiset_ensures;

            assert(sv.to_multiset().count(sv[i]) > 0);
            assert(values@.contains(sv[i]));
            let j = choose|j: int| 0 <= j < values@.len() && values@[j] == sv[i];
            assert(statistics@[j].valid());
        }
        assert(((n as int) - 1) * 1 == (n as int) - 1);
    }
    if n % 2 == 1 {
        let m = (n - 1) / 2;
        proof {
            assert(((n as int) - 1) % 2 == 0);
            assert(((n as int) - 1) / 2 == m as int);
        }
        sorted_values[m]
    } else {
        let a = sorted_values[n / 2 - 1];
        let b = sorted_values[n / 2];
        proof {
            let sv = sorted_of(field_values(statistics@, f));
            let lo = ((n as int) - 1) / 2;
            assert(((n as int) - 1) % 2 == 1);
            assert(lo == (n as int) / 2 - 1);
            assert(sv[lo] == a && sv[lo + 1] == b);
            assert(a <= b);
            let q = ((b - a) as int) / 2;
            let rem = ((b - a) as int) % 2;
            vstd::arithmetic::div_mod::lemma_fundamental_div_mod((b - a) as int, 2);
            assert((a + b) as int == 2 * (a as int + q) + rem);
            vstd::arithmetic::div_mod::lemma_div_multiples_vanish_fancy(a as int + q, rem, 2);
            assert((b - a) * 1 == (b - a) as int);
            assert(spec_rank_interpolated(sv, 1, 2) == a + q);
        }
        (a + b) / 2
    }
}

} // verus!
