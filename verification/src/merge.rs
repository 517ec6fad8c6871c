//! Bucketing and merging: assigns each run of a group a coordinate along
//! the key axis (a fixed-count uniform bucket, or the key itself when no
//! bucket count is requested), merges all runs sharing a merge key and
//! coordinate into one summary, and orders each group's summaries by key.

use vstd::prelude::*;

use crate::fixed::SCALE;
use crate::fixed::seq_min;
use crate::fixed::seq_max;
use crate::grouping::Group;
use crate::sorting::min_value_of;
use crate::sorting::max_value_of;
use crate::statistics_file::AlignmentParameters;
use crate::statistics_file::MAX_MERGE_COUNT;
use crate::statistics_file::MergedStatisticsFile;
use crate::statistics_file::ParametersView;
use crate::statistics_file::StatisticsFile;
use crate::statistics_file::is_summary_of;
use crate::statistics_file::alignment_strategies::AlignmentStrategies;
use crate::text::str_eq;
use vstd::multiset::Multiset;
use vstd::seq_lib::lemma_multiset_commutative;

verus! {

/// Largest supported bucket count; keeps the bucket arithmetic within the
/// key representation.
pub const MAX_BUCKET_AMOUNT: usize = 1_000_000;

/// The key projection of a merge pass: what a run's position on the key
/// axis is.
#[derive(Clone, Copy, Debug, PartialEq, Eq, Structural)]
pub enum KeyProjection {
    /// The run's alignment cost, in fixed-point units.
    Cost,
    /// A constant zero key (all runs of a group share one position).
    Zero,
}

/// The key of a run's identity under a key projection, in fixed-point
/// units.
pub open spec fn spec_key_of(p: ParametersView, proj: KeyProjection) -> i128 {
    match proj {
        KeyProjection::Cost => (p.cost * (SCALE as int)) as i128,
        KeyProjection::Zero => 0,
    }
}

/// The key of a run's identity under a key projection.
pub fn key_of(p: &AlignmentParameters, proj: &KeyProjection) -> (r: i128)
    ensures
        r == spec_key_of(p@, *proj),
        0 <= r <= u64::MAX as i128 * SCALE,
{
    match proj {
        KeyProjection::Cost => (p.cost as i128) * SCALE,
        KeyProjection::Zero => 0,
    }
}

/// The merge-key projection of a merge pass: which volatile identity
/// fields are cleared before runs are compared for merging.
#[derive(Clone, Copy, Debug, PartialEq, Eq, Structural)]
pub enum MergeKeyProjection {
    /// Clears the seed and the cost.
    ClearSeedAndCost,
    /// Clears the seed, the cost, the raw runtime and memory readings and
    /// the strategy selection.
    ClearRunSpecific,
}

/// A run identity with its volatile fields cleared under a merge-key
/// projection; two runs merge only when these agree.
pub open spec fn spec_merge_key(p: ParametersView, proj: MergeKeyProjection) -> ParametersView {
    match proj {
        MergeKeyProjection::ClearSeedAndCost => ParametersView { seed: 0, cost: 0, ..p },
        MergeKeyProjection::ClearRunSpecific => ParametersView {
            seed: 0,
            cost: 0,
            runtime_raw: Seq::<Seq<char>>::empty(),
            memory_raw: 0,
            strategies_node_ord: Seq::<char>::empty(),
            strategies_ts_min_length: Seq::<char>::empty(),
            ..p
        },
    }
}

/// Projects a run identity to its merge key.
pub fn merge_key_of(p: &AlignmentParameters, proj: &MergeKeyProjection) -> (r: AlignmentParameters)
    ensures
        r@ == spec_merge_key(p@, *proj),
{
    let mut r = p.clone();
    r.seed = 0;
    r.cost = 0;
    match proj {
        MergeKeyProjection::ClearSeedAndCost => {},
        MergeKeyProjection::ClearRunSpecific => {
            r.runtime_raw = Vec::new();
            r.memory_raw = 0;
            r.strategies = AlignmentStrategies::default();
        },
    }
    proof {
        assert(r@.runtime_raw =~= spec_merge_key(p@, *proj).runtime_raw);
    }
    r
}

/// Compares two run identities by their mathematical content.
pub fn params_eq(a: &AlignmentParameters, b: &AlignmentParameters) -> (r: bool)
    ensures
        r == (a@ == b@),
{
    if !(a.length == b.length && a.cost == b.cost && a.seed == b.seed && a.memory_raw
        == b.memory_raw) {
        return false;
    }
    if !str_eq(a.test_sequence_name.as_str(), b.test_sequence_name.as_str()) {
        return false;
    }
    if !str_eq(a.aligner.as_str(), b.aligner.as_str()) {
        return false;
    }
    if !str_eq(a.alignment_config.as_str(), b.alignment_config.as_str()) {
        return false;
    }
    if !(a.strategies == b.strategies) {
        return false;
    }
    if a.runtime_raw.len() != b.runtime_raw.len() {
        proof {
            assert(a@.runtime_raw.len() != b@.runtime_raw.len());
        }
        return false;
    }
    let mut i: usize = 0;
    while i < a.runtime_raw.len()
        invariant
            i <= a.runtime_raw@.len(),
            a.runtime_raw@.len() == b.runtime_raw@.len(),
            forall|k: int| 0 <= k < i ==> a@.runtime_raw[k] == b@.runtime_raw[k],
        decreases a.runtime_raw@.len() - i,
    {
        if !str_eq(a.runtime_raw[i].as_str(), b.runtime_raw[i].as_str()) {
            proof {
                assert(a@.runtime_raw[i as int] != b@.runtime_raw[i as int]);
            }
            return false;
        }
        i += 1;
    }
    proof {
        assert(a@.runtime_raw =~= b@.runtime_raw);
        assert(a@ == b@);
    }
    true
}

/// The bucket of a key in the `amount` equal-width buckets spanning
/// `[min_key, max_key]`: `floor((key - min_key) * amount / (max_key -
/// min_key))`, clamped into `[0, amount - 1]`; a degenerate range is one
/// single bucket.
pub open spec fn spec_bucket_index(key: int, min_key: int, max_key: int, amount: int) -> int {
    if min_key == max_key {
        0
    } else {
        let raw = (key - min_key) * amount / (max_key - min_key);
        if raw < 0 {
            0
        } else if raw > amount - 1 {
            amount - 1
        } else {
            raw
        }
    }
}

/// Assigns a key to its bucket. The assignment is deterministic and
/// always lands in `[0, amount - 1]`.
pub fn bucket_index(key: i128, min_key: i128, max_key: i128, amount: usize) -> (r: usize)
    requires
        1 <= amount <= MAX_BUCKET_AMOUNT,
        min_key <= key <= max_key,
        -(u64::MAX as i128) * SCALE <= min_key,
        max_key <= u64::MAX as i128 * SCALE,
    ensures
        r as int == spec_bucket_index(key as int, min_key as int, max_key as int, amount as int),
        r < amount,
{
    if min_key == max_key {
        return 0;
    }
    proof {
        let diff = key as int - min_key as int;
        assert(0 <= diff * (amount as int)) by (nonlinear_arith)
            requires diff >= 0, amount >= 1,
        ;
        assert(diff * (amount as int) <= diff * 1_000_000) by (nonlinear_arith)
            requires diff >= 0, 1 <= amount <= 1_000_000,
        ;
        assert(diff * 1_000_000 <= 40_000_000_000_000_000_000_000_000_000_000_000int) by (nonlinear_arith)
            requires 0 <= diff <= 40_000_000_000_000_000_000_000_000_000int,
        ;
    }
    let raw = (key - min_key) * (amount as i128) / (max_key - min_key);
    proof {
        assert(raw >= 0) by {
            vstd::arithmetic::div_mod::lemma_div_pos_is_pos(
                (key as int - min_key as int) * (amount as int),
                max_key as int - min_key as int,
            );
        }
    }
    if raw > amount as i128 - 1 {
        amount - 1
    } else {
        raw as usize
    }
}

/// The representative key of a bucket: its midpoint mapped back into the
/// key range, rounded down.
pub open spec fn spec_bucket_key(bucket: int, min_key: int, max_key: int, amount: int) -> int {
    min_key + (2 * bucket + 1) * (max_key - min_key) / (2 * amount)
}

/// The representative key of a bucket; it lies inside `[min_key,
/// max_key]`.
pub fn bucket_key(bucket: usize, min_key: i128, max_key: i128, amount: usize) -> (r: i128)
    requires
        1 <= amount <= MAX_BUCKET_AMOUNT,
        bucket < amount,
        min_key <= max_key,
        -(u64::MAX as i128) * SCALE <= min_key,
        max_key <= u64::MAX as i128 * SCALE,
    ensures
        r as int == spec_bucket_key(bucket as int, min_key as int, max_key as int, amount as int),
        min_key <= r <= max_key,
{
    proof {
        let b2 = 2 * (bucket as int) + 1;
        let range = max_key as int - min_key as int;
        assert(b2 * range <= 2_000_001int * range) by (nonlinear_arith)
            requires 1 <= b2 <= 2_000_001, range >= 0,
        ;
        assert(2_000_001int * range <= 2_000_001int * 40_000_000_000_000_000_000_000_000_000int)
            by (nonlinear_arith)
            requires 0 <= range <= 40_000_000_000_000_000_000_000_000_000int,
        ;
        assert(0 <= b2 * range) by (nonlinear_arith)
            requires b2 >= 1, range >= 0,
        ;
    }
    let numerator = (2 * (bucket as i128) + 1) * (max_key - min_key);
    proof {
        let b2 = 2 * (bucket as int) + 1;
        let range = max_key as int - min_key as int;
        let d = 2 * (amount as int);
        assert(0 <= b2 * range) by (nonlinear_arith)
            requires b2 >= 1, range >= 0,
        ;
        assert(b2 * range <= d * range) by (nonlinear_arith)
            requires 1 <= b2 <= d, range >= 0,
        ;
        vstd::arithmetic::div_mod::lemma_div_pos_is_pos(b2 * range, d);
        assert((b2 * range) / d <= (d * range) / d) by {
            vstd::arithmetic::div_mod::lemma_div_is_ordered(b2 * range, d * range, d);
        }
        assert((d * range) / d == range) by {
            vstd::arithmetic::div_mod::lemma_div_multiples_vanish(range, d);
        }
    }
    let offset = numerator / (2 * (amount as i128));
    min_key + offset
}

/// The keys of all runs of all groups, in order.
pub open spec fn all_keys(groups: Seq<Group>, proj: KeyProjection) -> Seq<i128>
    decreases groups.len(),
{
    if groups.len() == 0 {
        Seq::<i128>::empty()
    } else {
        all_keys(groups.drop_last(), proj) + groups.last().files@.map_values(
            |f: StatisticsFile| spec_key_of(f.parameters@, proj),
        )
    }
}

fn collect_keys(groups: &Vec<Group>, proj: &KeyProjection) -> (r: Vec<i128>)
    ensures
        r@ == all_keys(groups@, *proj),
{
    let mut r: Vec<i128> = Vec::new();
    let mut g: usize = 0;
    while g < groups.len()
        invariant
            g <= groups@.len(),
            r@ == all_keys(groups@.take(g as int), *proj),
        decreases groups.len() - g,
    {
        let files = &groups[g].files;
        let ghost done = r@;
        let mut i: usize = 0;
        while i < files.len()
            invariant
                i <= files@.len(),
                files@ == groups@[g as int].files@,
                g < groups@.len(),
                r@ =~= done + files@.take(i as int).map_values(
                    |f: StatisticsFile| spec_key_of(f.parameters@, *proj),
                ),
            decreases files.len() - i,
        {
            r.push(key_of(&files[i].parameters, proj));
            proof {
                assert(r@ =~= done + files@.take(i as int + 1).map_values(
                    |f: StatisticsFile| spec_key_of(f.parameters@, *proj),
                ));
            }
            i += 1;
        }
        proof {
            assert(files@.take(files@.len() as int) =~= files@);
            let taken = groups@.take(g as int + 1);
            assert(taken.drop_last() =~= groups@.take(g as int));
            assert(taken.last() == groups@[g as int]);
            assert(r@ =~= all_keys(taken, *proj));
        }
        g += 1;
    }
    proof {
        assert(groups@.take(groups@.len() as int) =~= groups@);
    }
    r
}

/// Every run key of every group occurs among [`all_keys`].
proof fn lemma_all_keys_element(groups: Seq<Group>, proj: KeyProjection, g: int, i: int)
    requires
        0 <= g < groups.len(),
        0 <= i < groups[g].files@.len(),
    ensures
        all_keys(groups, proj).contains(spec_key_of(groups[g].files@[i].parameters@, proj)),
    decreases groups.len(),
{
    let key = spec_key_of(groups[g].files@[i].parameters@, proj);
    let rest = all_keys(groups.drop_last(), proj);
    let last_keys = groups.last().files@.map_values(
        |f: StatisticsFile| spec_key_of(f.parameters@, proj),
    );
    if g == groups.len() - 1 {
        assert(last_keys[i] == key);
        assert(all_keys(groups, proj)[rest.len() + i] == key);
    } else {
        lemma_all_keys_element(groups.drop_last(), proj, g, i);
        let k = choose|k: int| 0 <= k < rest.len() && rest[k] == key;
        assert(all_keys(groups, proj)[k] == key);
    }
}

/// The smallest and largest run key across all groups.
pub fn key_range(groups: &Vec<Group>, proj: &KeyProjection) -> (r: (i128, i128))
    requires
        groups@.len() > 0,
        forall|g: int| 0 <= g < groups@.len() ==> (#[trigger] groups@[g]).files@.len() > 0,
    ensures
        r.0 == seq_min(all_keys(groups@, *proj)),
        r.1 == seq_max(all_keys(groups@, *proj)),
        r.0 <= r.1,
{
    let keys = collect_keys(groups, proj);
    proof {
        assert(all_keys(groups@, *proj).len() > 0) by {
            let last = groups@.last();
            assert(groups@[groups@.len() - 1].files@.len() > 0);
        }
        crate::fixed::lemma_seq_min_ensures(keys@);
        crate::fixed::lemma_seq_max_ensures(keys@);
        let m = seq_min(keys@);
        let k = choose|k: int| 0 <= k < keys@.len() && keys@[k] == m;
        assert(keys@[k] <= seq_max(keys@));
    }
    let lo = min_value_of(&keys);
    let hi = max_value_of(&keys);
    (lo, hi)
}

/// The key-axis coordinate a run merges at: its bucket when a bucket
/// count is requested, otherwise its key itself.
pub open spec fn spec_part_coord(
    f: StatisticsFile,
    kproj: KeyProjection,
    amount: Option<int>,
    min_key: int,
    max_key: int,
) -> int {
    match amount {
        Some(b) => spec_bucket_index(
            spec_key_of(f.parameters@, kproj) as int,
            min_key,
            max_key,
            b,
        ),
        None => spec_key_of(f.parameters@, kproj) as int,
    }
}

/// Whether a run belongs to the merge partition identified by merge key
/// `mk` and coordinate `coord`.
pub open spec fn spec_part_matches(
    f: StatisticsFile,
    mproj: MergeKeyProjection,
    kproj: KeyProjection,
    amount: Option<int>,
    min_key: int,
    max_key: int,
    mk: ParametersView,
    coord: int,
) -> bool {
    spec_merge_key(f.parameters@, mproj) == mk && spec_part_coord(f, kproj, amount, min_key, max_key)
        == coord
}

/// The runs of `files` in the merge partition `(mk, coord)`, in input
/// order.
pub open spec fn files_in_part(
    files: Seq<StatisticsFile>,
    mproj: MergeKeyProjection,
    kproj: KeyProjection,
    amount: Option<int>,
    min_key: int,
    max_key: int,
    mk: ParametersView,
    coord: int,
) -> Seq<StatisticsFile>
    decreases files.len(),
{
    if files.len() == 0 {
        Seq::<StatisticsFile>::empty()
    } else if spec_part_matches(files.last(), mproj, kproj, amount, min_key, max_key, mk, coord) {
        files_in_part(files.drop_last(), mproj, kproj, amount, min_key, max_key, mk, coord).push(
            files.last(),
        )
    } else {
        files_in_part(files.drop_last(), mproj, kproj, amount, min_key, max_key, mk, coord)
    }
}

/// The representative key of a merge partition: the bucket midpoint when
/// bucketed, otherwise the coordinate, which then is the raw key.
pub open spec fn spec_rep_key(coord: int, amount: Option<int>, min_key: int, max_key: int) -> int {
    match amount {
        Some(b) => spec_bucket_key(coord, min_key, max_key, b),
        None => coord,
    }
}

/// The view of an optional bucket count.
pub open spec fn amount_view(amount: Option<usize>) -> Option<int> {
    match amount {
        Some(b) => Some(b as int),
        None => None,
    }
}

/// Whether `m` is the merged summary of one merge partition of `files`.
pub open spec fn is_merged_part(
    m: MergedStatisticsFile,
    files: Seq<StatisticsFile>,
    mproj: MergeKeyProjection,
    kproj: KeyProjection,
    amount: Option<int>,
    min_key: int,
    max_key: int,
) -> bool {
    exists|mk: ParametersView, coord: int|
        {
            let part = #[trigger] files_in_part(files, mproj, kproj, amount, min_key, max_key, mk, coord);
            part.len() > 0 && is_summary_of(
                m,
                part.map_values(|f: StatisticsFile| f.statistics),
                spec_rep_key(coord, amount, min_key, max_key),
            )
        }
}

/// Total number of raw measurement records retained across a sequence of
/// merged summaries.
pub open spec fn total_contained(ms: Seq<MergedStatisticsFile>) -> int
    decreases ms.len(),
{
    if ms.len() == 0 {
        0
    } else {
        total_contained(ms.drop_last()) + ms.last().contained_statistics@.len()
    }
}

/// Whether `merged` is a complete merge of `files`: every summary is the
/// summary of one merge partition, no raw record is lost or duplicated,
/// and the summaries are ordered by key.
pub open spec fn merged_group_ok(
    files: Seq<StatisticsFile>,
    mproj: MergeKeyProjection,
    kproj: KeyProjection,
    amount: Option<int>,
    min_key: int,
    max_key: int,
    merged: Seq<MergedStatisticsFile>,
) -> bool {
    &&& forall|m: int|
        0 <= m < merged.len() ==> is_merged_part(
            #[trigger] merged[m],
            files,
            mproj,
            kproj,
            amount,
            min_key,
            max_key,
        )
    &&& total_contained(merged) == files.len()
    &&& forall|m1: int, m2: int|
        0 <= m1 <= m2 < merged.len() ==> (#[trigger] merged[m1]).key <= (#[trigger] merged[m2]).key
}

/// Concatenation splits the total retained record count.
proof fn lemma_total_contained_split(a: Seq<MergedStatisticsFile>, b: Seq<MergedStatisticsFile>)
    ensures
        total_contained(a + b) == total_contained(a) + total_contained(b),
    decreases b.len(),
{
    if b.len() == 0 {
        assert(a + b =~= a);
    } else {
        assert((a + b).drop_last() =~= a + b.drop_last());
        assert((a + b).last() == b.last());
        lemma_total_contained_split(a, b.drop_last());
    }
}

/// Removing one summary removes exactly its retained records from the
/// total.
proof fn lemma_total_contained_remove(s: Seq<MergedStatisticsFile>, j: int)
    requires
        0 <= j < s.len(),
    ensures
        total_contained(s) == total_contained(s.remove(j)) + s[j].contained_statistics@.len(),
{
    assert(s =~= s.take(j) + seq![s[j]] + s.skip(j + 1));
    assert(s.remove(j) =~= s.take(j) + s.skip(j + 1));
    lemma_total_contained_split(s.take(j) + seq![s[j]], s.skip(j + 1));
    lemma_total_contained_split(s.take(j), seq![s[j]]);
    lemma_total_contained_split(s.take(j), s.skip(j + 1));
    assert(total_contained(seq![s[j]]) == s[j].contained_statistics@.len()) by {
        assert(seq![s[j]].drop_last() =~= Seq::<MergedStatisticsFile>::empty());
        assert(total_contained(Seq::<MergedStatisticsFile>::empty()) == 0);
        assert(seq![s[j]].last() == s[j]);
    }
}

/// A group's merged summaries, ordered by key.
#[derive(Debug)]
pub struct MergedGroup {
    /// The group's name.
    pub name: String,
    /// The group's merged summaries, ordered by key.
    pub files: Vec<MergedStatisticsFile>,
}

struct MergePartition {
    merge_key: AlignmentParameters,
    coord: i128,
    files: Vec<StatisticsFile>,
}

spec fn total_part_files(parts: Seq<MergePartition>) -> int
    decreases parts.len(),
{
    if parts.len() == 0 {
        0
    } else {
        total_part_files(parts.drop_last()) + parts.last().files@.len()
    }
}

/// A run key is always a nonnegative fixed-point value within the cost
/// range.
proof fn lemma_key_of_bounds(f: StatisticsFile, proj: KeyProjection)
    ensures
        0 <= spec_key_of(f.parameters@, proj) <= u64::MAX as i128 * SCALE,
{
    match proj {
        KeyProjection::Cost => {
            let c = f.parameters@.cost;
            assert(0 <= c <= u64::MAX);
            assert(0 <= c * (SCALE as int) <= (u64::MAX as int) * (SCALE as int))
                by (nonlinear_arith)
                requires 0 <= c <= u64::MAX as int, SCALE as int > 0,
            ;
        },
        KeyProjection::Zero => {},
    }
}

proof fn lemma_files_in_part_empty(
    files: Seq<StatisticsFile>,
    mproj: MergeKeyProjection,
    kproj: KeyProjection,
    amount: Option<int>,
    min_key: int,
    max_key: int,
    mk: ParametersView,
    coord: int,
)
    requires
        forall|i: int|
            0 <= i < files.len() ==> !spec_part_matches(
                #[trigger] files[i],
                mproj,
                kproj,
                amount,
                min_key,
                max_key,
                mk,
                coord,
            ),
    ensures
        files_in_part(files, mproj, kproj, amount, min_key, max_key, mk, coord) == Seq::<
            StatisticsFile,
        >::empty(),
    decreases files.len(),
{
    if files.len() > 0 {
        assert(forall|i: int|
            0 <= i < files.drop_last().len() ==> #[trigger] files.drop_last()[i] == files[i]);
        lemma_files_in_part_empty(files.drop_last(), mproj, kproj, amount, min_key, max_key, mk, coord);
        assert(!spec_part_matches(files.last(), mproj, kproj, amount, min_key, max_key, mk, coord))
            by {
            assert(files[files.len() - 1] == files.last());
        }
    }
}

proof fn lemma_files_in_part_elements(
    files: Seq<StatisticsFile>,
    mproj: MergeKeyProjection,
    kproj: KeyProjection,
    amount: Option<int>,
    min_key: int,
    max_key: int,
    mk: ParametersView,
    coord: int,
)
    ensures
        files_in_part(files, mproj, kproj, amount, min_key, max_key, mk, coord).len()
            <= files.len(),
        forall|k: int|
            0 <= k < files_in_part(files, mproj, kproj, amount, min_key, max_key, mk, coord).len()
                ==> files.contains(
                #[trigger] files_in_part(files, mproj, kproj, amount, min_key, max_key, mk, coord)[k],
            ),
    decreases files.len(),
{
    if files.len() > 0 {
        let whole = files_in_part(files, mproj, kproj, amount, min_key, max_key, mk, coord);
        let rec = files_in_part(
            files.drop_last(),
            mproj,
            kproj,
            amount,
            min_key,
            max_key,
            mk,
            coord,
        );
        lemma_files_in_part_elements(
            files.drop_last(),
            mproj,
            kproj,
            amount,
            min_key,
            max_key,
            mk,
            coord,
        );
        assert forall|k: int| 0 <= k < whole.len() implies files.contains(#[trigger] whole[k]) by {
            if spec_part_matches(files.last(), mproj, kproj, amount, min_key, max_key, mk, coord)
                && k == whole.len() - 1 {
                assert(whole[k] == files.last());
                assert(files[files.len() - 1] == files.last());
            } else {
                assert(whole[k] == rec[k]);
                assert(files.drop_last().contains(rec[k]));
                let idx = choose|idx: int|
                    0 <= idx < files.drop_last().len() && files.drop_last()[idx] == rec[k];
                assert(files[idx] == rec[k]);
            }
        }
    }
}

/// Reordering the summaries keeps the total retained record count: no
/// record is lost or duplicated by sorting.
pub proof fn lemma_total_contained_permutation(
    s1: Seq<MergedStatisticsFile>,
    s2: Seq<MergedStatisticsFile>,
)
    requires
        s1.to_multiset() == s2.to_multiset(),
    ensures
        total_contained(s1) == total_contained(s2),
    decreases s1.len(),
{
    broadcast use vstd::seq_lib::group_to_multiset_ensures;

    if s1.len() == 0 {
        assert(s1.to_multiset().len() == s1.len());
        assert(s2.to_multiset().len() == s2.len());
        assert(s2.len() == 0);
    } else {
        let x = s1.last();
        assert(s1.drop_last() =~= s1.remove(s1.len() - 1));
        assert(s1.drop_last().to_multiset() =~= s1.to_multiset().remove(x));
        assert(s1.contains(x)) by {
            assert(s1[s1.len() - 1] == x);
        }
        assert(s1.to_multiset().count(x) > 0);
        assert(s2.to_multiset().count(x) > 0);
        assert(s2.contains(x));
        let j = choose|j: int| 0 <= j < s2.len() && s2[j] == x;
        assert(s2.remove(j).to_multiset() =~= s2.to_multiset().remove(x));
        lemma_total_contained_permutation(s1.drop_last(), s2.remove(j));
        lemma_total_contained_remove(s2, j);
        assert(total_contained(s1) == total_contained(s1.drop_last())
            + x.contained_statistics@.len());
    }
}

spec fn parts_ok(
    files: Seq<StatisticsFile>,
    mproj: MergeKeyProjection,
    kproj: KeyProjection,
    amount: Option<int>,
    min_key: int,
    max_key: int,
    parts: Seq<MergePartition>,
) -> bool {
    &&& forall|j: int|
        0 <= j < parts.len() ==> (#[trigger] parts[j]).files@ == files_in_part(
            files,
            mproj,
            kproj,
            amount,
            min_key,
            max_key,
            parts[j].merge_key@,
            parts[j].coord as int,
        )
    &&& forall|j: int| 0 <= j < parts.len() ==> (#[trigger] parts[j]).files@.len() > 0
    &&& forall|j1: int, j2: int|
        0 <= j1 < parts.len() && 0 <= j2 < parts.len() && j1 != j2 ==> !((#[trigger] parts[j1]).merge_key@
            == (#[trigger] parts[j2]).merge_key@ && parts[j1].coord == parts[j2].coord)
    &&& forall|i: int|
        0 <= i < files.len() ==> exists|j: int|
            0 <= j < parts.len() && spec_part_matches(
                #[trigger] files[i],
                mproj,
                kproj,
                amount,
                min_key,
                max_key,
                (#[trigger] parts[j]).merge_key@,
                parts[j].coord as int,
            )
}

fn partition_group(
    group_files: Vec<StatisticsFile>,
    mproj: &MergeKeyProjection,
    kproj: &KeyProjection,
    amount: Option<usize>,
    min_key: i128,
    max_key: i128,
) -> (parts: Vec<MergePartition>)
    requires
        (match amount {
            Some(b) => 1 <= b <= MAX_BUCKET_AMOUNT,
            None => true,
        }),
        min_key <= max_key,
        -(u64::MAX as i128) * SCALE <= min_key,
        max_key <= u64::MAX as i128 * SCALE,
        forall|i: int|
            0 <= i < group_files@.len() ==> min_key <= spec_key_of(
                (#[trigger] group_files@[i]).parameters@,
                *kproj,
            ) <= max_key,
    ensures
        parts_ok(
            group_files@,
            *mproj,
            *kproj,
            amount_view(amount),
            min_key as int,
            max_key as int,
            parts@,
        ),
        total_part_files(parts@) == group_files@.len(),
        (match amount {
            Some(b) => forall|j: int|
                0 <= j < parts@.len() ==> 0 <= (#[trigger] parts@[j]).coord < b,
            None => true,
        }),
{
    let ghost orig = group_files@;
    let ghost av = amount_view(amount);
    let mut files = group_files;
    let mut parts: Vec<MergePartition> = Vec::new();
    let ghost mut processed: int = 0;
    proof {
        assert(files@ =~= orig.skip(0));
        assert(orig.take(0) =~= Seq::<StatisticsFile>::empty());
    }
    while files.len() > 0
        invariant
            0 <= processed <= orig.len(),
            files@ == orig.skip(processed),
            parts_ok(orig.take(processed), *mproj, *kproj, av, min_key as int, max_key as int, parts@),
            total_part_files(parts@) == processed,
            (match amount {
                Some(b) => forall|j: int|
                    0 <= j < parts@.len() ==> 0 <= (#[trigger] parts@[j]).coord < b,
                None => true,
            }),
        decreases files.len(),
    {
        proof {
            assert(orig.skip(processed)[0] == orig[processed]);
        }
        let f = files.remove(0);
        proof {
            assert(files@ =~= orig.skip(processed + 1));
            lemma_key_of_bounds(f, *kproj);
        }
        let key = key_of(&f.parameters, kproj);
        let coord: i128 = match amount {
            Some(b) => bucket_index(key, min_key, max_key, b) as i128,
            None => key,
        };
        let mk = merge_key_of(&f.parameters, mproj);
        proof {
            assert(coord as int == spec_part_coord(f, *kproj, av, min_key as int, max_key as int));
            assert(spec_part_matches(
                f,
                *mproj,
                *kproj,
                av,
                min_key as int,
                max_key as int,
                mk@,
                coord as int,
            ));
        }
        let mut target: Option<usize> = None;
        let mut pi: usize = 0;
        while pi < parts.len() && target.is_none()
            invariant
                pi <= parts@.len(),
                match target {
                    Option::Some(t) => t < parts@.len() && parts@[t as int].merge_key@ == mk@
                        && parts@[t as int].coord == coord,
                    Option::None => forall|k: int|
                        0 <= k < pi ==> !((#[trigger] parts@[k]).merge_key@ == mk@ && parts@[k].coord
                            == coord),
                },
            decreases parts.len() - pi + (if target is None { 1int } else { 0int }),
    {
            if parts[pi].coord == coord && params_eq(&parts[pi].merge_key, &mk) {
                target = Some(pi);
            } else {
                pi += 1;
            }
        }
        let ghost prev = orig.take(processed);
        let ghost now = orig.take(processed + 1);
        let ghost ps0 = parts@;
        proof {
            assert(now.drop_last() =~= prev);
            assert(now.last() == f);
        }
        match target {
            Some(t) => {
                let mut p = parts.remove(t);
                p.files.push(f);
                let ghost p2 = p;
                parts.insert(t, p);
                proof {
                    assert(parts@ =~= ps0.update(t as int, p2));
                    assert(p2.merge_key@ == ps0[t as int].merge_key@);
                    assert(p2.files@ == ps0[t as int].files@.push(f));
                    assert forall|jj: int| 0 <= jj < parts@.len() implies (
                    #[trigger] parts@[jj]).files@ == files_in_part(
                        now,
                        *mproj,
                        *kproj,
                        av,
                        min_key as int,
                        max_key as int,
                        parts@[jj].merge_key@,
                        parts@[jj].coord as int,
                    ) by {
                        if jj == t {
                            assert(spec_part_matches(
                                f,
                                *mproj,
                                *kproj,
                                av,
                                min_key as int,
                                max_key as int,
                                parts@[jj].merge_key@,
                                parts@[jj].coord as int,
                            ));
                        } else {
                            assert(parts@[jj] == ps0[jj]);
                            assert(!(ps0[jj].merge_key@ == mk@ && ps0[jj].coord == coord));
                            assert(!spec_part_matches(
                                f,
                                *mproj,
                                *kproj,
                                av,
                                min_key as int,
                                max_key as int,
                                parts@[jj].merge_key@,
                                parts@[jj].coord as int,
                            ));
                        }
                    }
                    assert(forall|jj: int|
                        0 <= jj < ps0.len() ==> (#[trigger] parts@[jj]).merge_key@
                            == ps0[jj].merge_key@ && parts@[jj].coord == ps0[jj].coord);
                    assert(total_part_files(parts@) == processed + 1) by {
                        lemma_total_part_files_update(ps0, t as int, p2);
                    }
                    assert(exists|j: int|
                        0 <= j < parts@.len() && (#[trigger] parts@[j]).merge_key@ == mk@
                            && parts@[j].coord == coord) by {
                        assert(parts@[t as int].merge_key@ == mk@ && parts@[t as int].coord
                            == coord);
                    }
                }
            },
            None => {
                let mut only: Vec<StatisticsFile> = Vec::new();
                only.push(f);
                parts.push(MergePartition { merge_key: mk, coord, files: only });
                proof {
                    let last = parts@.len() - 1;
                    assert forall|k: int|
                        0 <= k < prev.len() implies !spec_part_matches(
                        #[trigger] prev[k],
                        *mproj,
                        *kproj,
                        av,
                        min_key as int,
                        max_key as int,
                        mk@,
                        coord as int,
                    ) by {
                        let jj = choose|jj: int|
                            0 <= jj < ps0.len() && spec_part_matches(
                                prev[k],
                                *mproj,
                                *kproj,
                                av,
                                min_key as int,
                                max_key as int,
                                ps0[jj].merge_key@,
                                ps0[jj].coord as int,
                            );
                        assert(!(ps0[jj].merge_key@ == mk@ && ps0[jj].coord == coord));
                    }
                    lemma_files_in_part_empty(
                        prev,
                        *mproj,
                        *kproj,
                        av,
                        min_key as int,
                        max_key as int,
                        mk@,
                        coord as int,
                    );
                    assert forall|jj: int| 0 <= jj < parts@.len() implies (
                    #[trigger] parts@[jj]).files@ == files_in_part(
                        now,
                        *mproj,
                        *kproj,
                        av,
                        min_key as int,
                        max_key as int,
                        parts@[jj].merge_key@,
                        parts@[jj].coord as int,
                    ) by {
                        if jj < ps0.len() {
                            assert(parts@[jj] == ps0[jj]);
                            assert(!(ps0[jj].merge_key@ == mk@ && ps0[jj].coord == coord));
                            assert(!spec_part_matches(
                                f,
                                *mproj,
                                *kproj,
                                av,
                                min_key as int,
                                max_key as int,
                                parts@[jj].merge_key@,
                                parts@[jj].coord as int,
                            ));
                        } else {
                            assert(parts@[jj].merge_key@ == mk@ && parts@[jj].coord == coord);
                            assert(parts@[jj].files@ =~= files_in_part(
                                prev,
                                *mproj,
                                *kproj,
                                av,
                                min_key as int,
                                max_key as int,
                                mk@,
                                coord as int,
                            ).push(f));
                        }
                    }
                    assert(total_part_files(parts@) == processed + 1) by {
                        assert(parts@.drop_last() =~= ps0);
                    }
                    assert(exists|j: int|
                        0 <= j < parts@.len() && (#[trigger] parts@[j]).merge_key@ == mk@
                            && parts@[j].coord == coord) by {
                        assert(parts@[parts@.len() - 1].merge_key@ == mk@ && parts@[parts@.len()
                            - 1].coord == coord);
                    }
                }
            },
        }
        proof {
            assert(exists|j: int|
                0 <= j < parts@.len() && (#[trigger] parts@[j]).merge_key@ == mk@ && parts@[j].coord
                    == coord);
            assert forall|k: int|
                0 <= k < processed + 1 implies exists|j: int|
                    0 <= j < parts@.len() && spec_part_matches(
                        #[trigger] now[k],
                        *mproj,
                        *kproj,
                        av,
                        min_key as int,
                        max_key as int,
                        (#[trigger] parts@[j]).merge_key@,
                        parts@[j].coord as int,
                    ) by {
                if k < processed {
                    assert(prev[k] == now[k]);
                    let j0 = choose|j0: int|
                        0 <= j0 < ps0.len() && spec_part_matches(
                            prev[k],
                            *mproj,
                            *kproj,
                            av,
                            min_key as int,
                            max_key as int,
                            ps0[j0].merge_key@,
                            ps0[j0].coord as int,
                        );
                    assert(parts@[j0].merge_key@ == ps0[j0].merge_key@ && parts@[j0].coord
                        == ps0[j0].coord);
                } else {
                    assert(now[k] == f);
                    let j1 = choose|j1: int|
                        0 <= j1 < parts@.len() && (#[trigger] parts@[j1]).merge_key@ == mk@
                            && parts@[j1].coord == coord;
                    assert(spec_part_matches(
                        f,
                        *mproj,
                        *kproj,
                        av,
                        min_key as int,
                        max_key as int,
                        parts@[j1].merge_key@,
                        parts@[j1].coord as int,
                    ));
                }
            }
            processed = processed + 1;
        }
    }
    proof {
        assert(orig.take(processed) =~= orig);
    }
    parts
}

fn sort_merged_by_key(ms: Vec<MergedStatisticsFile>) -> (r: Vec<MergedStatisticsFile>)
    ensures
        r@.to_multiset() == ms@.to_multiset(),
        forall|m1: int, m2: int|
            0 <= m1 <= m2 < r@.len() ==> (#[trigger] r@[m1]).key <= (#[trigger] r@[m2]).key,
{
    broadcast use vstd::seq_lib::group_to_multiset_ensures;

    let ghost orig = ms@;
    let mut rest = ms;
    let mut r: Vec<MergedStatisticsFile> = Vec::new();
    while rest.len() > 0
        invariant
            r@.to_multiset().add(rest@.to_multiset()) =~= orig.to_multiset(),
            forall|m1: int, m2: int|
                0 <= m1 <= m2 < r@.len() ==> (#[trigger] r@[m1]).key <= (#[trigger] r@[m2]).key,
        decreases rest.len(),
    {
        let ghost rest0 = rest@;
        let v = rest.remove(0);
        proof {
            assert(rest@ =~= rest0.remove(0));
            assert(rest@.to_multiset() =~= rest0.to_multiset().remove(v));
        }
        let mut j: usize = 0;
        while j < r.len() && r[j].key <= v.key
            invariant
                j <= r@.len(),
                forall|k: int| 0 <= k < j ==> (#[trigger] r@[k]).key <= v.key,
            decreases r.len() - j,
        {
            j += 1;
        }
        let ghost prefix = r@.take(j as int);
        let ghost suffix = r@.skip(j as int);
        let ghost r0 = r@;
        r.insert(j, v);
        proof {
            assert(r@ =~= prefix + seq![v] + suffix);
            lemma_multiset_commutative(prefix + seq![v], suffix);
            lemma_multiset_commutative(prefix, seq![v]);
            lemma_multiset_commutative(prefix, suffix);
            assert(seq![v].to_multiset() =~= Multiset::<MergedStatisticsFile>::empty().insert(v))
                by {
                assert(seq![v].drop_last() =~= Seq::<MergedStatisticsFile>::empty());
            }
            assert(r@.to_multiset() =~= r0.to_multiset().insert(v));
            assert(r@.to_multiset().add(rest@.to_multiset()) =~= orig.to_multiset());
        }
    }
    proof {
        assert(rest@.to_multiset() =~= Multiset::<MergedStatisticsFile>::empty());
        assert(r@.to_multiset() =~= r@.to_multiset().add(rest@.to_multiset()));
    }
    r
}

fn merge_group(
    group_files: Vec<StatisticsFile>,
    mproj: &MergeKeyProjection,
    kproj: &KeyProjection,
    amount: Option<usize>,
    min_key: i128,
    max_key: i128,
) -> (r: Vec<MergedStatisticsFile>)
    requires
        group_files@.len() <= MAX_MERGE_COUNT,
        forall|i: int|
            0 <= i < group_files@.len() ==> (#[trigger] group_files@[i]).statistics.valid(),
        (match amount {
            Some(b) => 1 <= b <= MAX_BUCKET_AMOUNT,
            None => true,
        }),
        min_key <= max_key,
        -(u64::MAX as i128) * SCALE <= min_key,
        max_key <= u64::MAX as i128 * SCALE,
        forall|i: int|
            0 <= i < group_files@.len() ==> min_key <= spec_key_of(
                (#[trigger] group_files@[i]).parameters@,
                *kproj,
            ) <= max_key,
    ensures
        merged_group_ok(
            group_files@,
            *mproj,
            *kproj,
            amount_view(amount),
            min_key as int,
            max_key as int,
            r@,
        ),
{
    broadcast use vstd::seq_lib::group_to_multiset_ensures;

    let ghost fseq = group_files@;
    let ghost av = amount_view(amount);
    let parts = partition_group(group_files, mproj, kproj, amount, min_key, max_key);
    let ghost parts0 = parts@;
    let mut rest = parts;
    let mut merged: Vec<MergedStatisticsFile> = Vec::new();
    let ghost mut consumed: int = 0;
    proof {
        assert(rest@ =~= parts0.skip(0));
        assert(parts0.take(0) =~= Seq::<MergePartition>::empty());
    }
    while rest.len() > 0
        invariant
            0 <= consumed <= parts0.len(),
            rest@ == parts0.skip(consumed),
            forall|m: int|
                0 <= m < merged@.len() ==> is_merged_part(
                    #[trigger] merged@[m],
                    fseq,
                    *mproj,
                    *kproj,
                    av,
                    min_key as int,
                    max_key as int,
                ),
            total_contained(merged@) == total_part_files(parts0.take(consumed)),
        decreases rest.len(),
    {
        proof {
            assert(parts0.skip(consumed)[0] == parts0[consumed]);
        }
        let part = rest.remove(0);
        proof {
            assert(rest@ =~= parts0.skip(consumed + 1));
            assert(part == parts0[consumed]);
        }
        let rep: i128 = match amount {
            Some(b) => bucket_key(part.coord as usize, min_key, max_key, b),
            None => part.coord,
        };
        let ghost part_seq = files_in_part(
            fseq,
            *mproj,
            *kproj,
            av,
            min_key as int,
            max_key as int,
            part.merge_key@,
            part.coord as int,
        );
        proof {
            assert(part.files@ == part_seq);
            lemma_files_in_part_elements(
                fseq,
                *mproj,
                *kproj,
                av,
                min_key as int,
                max_key as int,
                part.merge_key@,
                part.coord as int,
            );
            assert forall|i: int|
                0 <= i < part.files@.len() implies (#[trigger] part.files@[i]).statistics.valid()
                by {
                assert(fseq.contains(part_seq[i]));
                let idx = choose|idx: int| 0 <= idx < fseq.len() && fseq[idx] == part_seq[i];
            }
            assert(rep as int == spec_rep_key(part.coord as int, av, min_key as int, max_key as int));
        }
        let ghost merged0 = merged@;
        let summary = MergedStatisticsFile::from_statistics_files(rep, part.files);
        merged.push(summary);
        proof {
            assert(is_merged_part(summary, fseq, *mproj, *kproj, av, min_key as int, max_key as int))
                by {
                assert(part_seq.len() > 0 && is_summary_of(
                    summary,
                    part_seq.map_values(|f: StatisticsFile| f.statistics),
                    spec_rep_key(part.coord as int, av, min_key as int, max_key as int),
                ));
            }
            assert(merged@.drop_last() =~= merged0);
            assert(parts0.take(consumed + 1).drop_last() =~= parts0.take(consumed));
            assert(parts0.take(consumed + 1).last() == part);
            assert(summary.contained_statistics@.len() == part.files@.len());
            consumed = consumed + 1;
        }
    }
    proof {
        assert(parts0.take(consumed) =~= parts0);
    }
    let sorted = sort_merged_by_key(merged);
    proof {
        assert forall|m: int| 0 <= m < sorted@.len() implies is_merged_part(
            #[trigger] sorted@[m],
            fseq,
            *mproj,
            *kproj,
            av,
            min_key as int,
            max_key as int,
        ) by {
            assert(sorted@.contains(sorted@[m]));
            assert(sorted@.to_multiset().count(sorted@[m]) > 0);
            let idx = choose|idx: int| 0 <= idx < merged@.len() && merged@[idx] == sorted@[m];
        }
        lemma_total_contained_permutation(sorted@, merged@);
    }
    sorted
}

/// Merges each group's runs into summaries and orders them by key.
/// Returns the merged groups together with the global key range
/// `(min_key, max_key)` over all runs of all groups, which also spans the
/// buckets. Within each group, runs merge exactly when their cleared
/// merge key and their key-axis coordinate agree; no run is lost or
/// duplicated.
pub fn merge_and_sort_files_in_groups(
    groups: Vec<Group>,
    key_bucket_amount: Option<usize>,
    kproj: &KeyProjection,
    mproj: &MergeKeyProjection,
) -> (r: (Vec<MergedGroup>, i128, i128))
    requires
        groups@.len() > 0,
        forall|g: int| 0 <= g < groups@.len() ==> (#[trigger] groups@[g]).files@.len() > 0,
        forall|g: int|
            0 <= g < groups@.len() ==> (#[trigger] groups@[g]).files@.len() <= MAX_MERGE_COUNT,
        forall|g: int, i: int|
            0 <= g < groups@.len() && 0 <= i < groups@[g].files@.len() ==> (#[trigger] groups@[
                g
            ].files@[i]).statistics.valid(),
        (match key_bucket_amount {
            Some(b) => 1 <= b <= MAX_BUCKET_AMOUNT,
            None => true,
        }),
    ensures
        r.1 == seq_min(all_keys(groups@, *kproj)),
        r.2 == seq_max(all_keys(groups@, *kproj)),
        r.1 <= r.2,
        r.0@.len() == groups@.len(),
        forall|g: int|
            0 <= g < groups@.len() ==> (#[trigger] r.0@[g]).name@ == groups@[g].name@,
        forall|g: int|
            0 <= g < groups@.len() ==> merged_group_ok(
                groups@[g].files@,
                *mproj,
                *kproj,
                amount_view(key_bucket_amount),
                r.1 as int,
                r.2 as int,
                (#[trigger] r.0@[g]).files@,
            ),
{
    let ghost orig = groups@;
    let ghost av = amount_view(key_bucket_amount);
    let (min_key, max_key) = key_range(&groups, kproj);
    proof {
        crate::fixed::lemma_seq_min_ensures(all_keys(orig, *kproj));
        crate::fixed::lemma_seq_max_ensures(all_keys(orig, *kproj));
        assert forall|g: int, i: int|
            0 <= g < orig.len() && 0 <= i < orig[g].files@.len() implies min_key <= spec_key_of(
            (#[trigger] orig[g].files@[i]).parameters@,
            *kproj,
        ) <= max_key by {
            lemma_all_keys_element(orig, *kproj, g, i);
            let key = spec_key_of(orig[g].files@[i].parameters@, *kproj);
            let k = choose|k: int|
                0 <= k < all_keys(orig, *kproj).len() && all_keys(orig, *kproj)[k] == key;
        }
        assert(orig[0].files@.len() > 0);
        lemma_key_of_bounds(orig[0].files@[0], *kproj);
        assert(min_key <= spec_key_of(orig[0].files@[0].parameters@, *kproj) <= max_key);
        assert forall|g: int, i: int|
            0 <= g < orig.len() && 0 <= i < orig[g].files@.len() implies 0 <= spec_key_of(
            (#[trigger] orig[g].files@[i]).parameters@,
            *kproj,
        ) <= u64::MAX as i128 * SCALE by {
            lemma_key_of_bounds(orig[g].files@[i], *kproj);
        }
        assert(-(u64::MAX as i128) * SCALE <= min_key && max_key <= u64::MAX as i128 * SCALE) by {
            let mn = seq_min(all_keys(orig, *kproj));
            let mx = seq_max(all_keys(orig, *kproj));
            let kmn = choose|k: int|
                0 <= k < all_keys(orig, *kproj).len() && all_keys(orig, *kproj)[k] == mn;
            let kmx = choose|k: int|
                0 <= k < all_keys(orig, *kproj).len() && all_keys(orig, *kproj)[k] == mx;
            lemma_all_keys_bounds(orig, *kproj);
        }
    }
    let mut remaining = groups;
    let mut merged_groups: Vec<MergedGroup> = Vec::new();
    let ghost mut done: int = 0;
    proof {
        assert(remaining@ =~= orig.skip(0));
    }
    while remaining.len() > 0
        invariant
            0 <= done <= orig.len(),
            remaining@ == orig.skip(done),
            merged_groups@.len() == done,
            min_key <= max_key,
            min_key == seq_min(all_keys(orig, *kproj)),
            max_key == seq_max(all_keys(orig, *kproj)),
            -(u64::MAX as i128) * SCALE <= min_key,
            max_key <= u64::MAX as i128 * SCALE,
            forall|g: int|
                0 <= g < done ==> (#[trigger] merged_groups@[g]).name@ == orig[g].name@,
            forall|g: int|
                0 <= g < done ==> merged_group_ok(
                    orig[g].files@,
                    *mproj,
                    *kproj,
                    av,
                    min_key as int,
                    max_key as int,
                    (#[trigger] merged_groups@[g]).files@,
                ),
        decreases remaining.len(),
    {
        proof {
            assert(orig.skip(done)[0] == orig[done]);
        }
        let group = remaining.remove(0);
        proof {
            assert(remaining@ =~= orig.skip(done + 1));
            assert(group == orig[done]);
        }
        let merged = merge_group(group.files, mproj, kproj, key_bucket_amount, min_key, max_key);
        merged_groups.push(MergedGroup { name: group.name, files: merged });
        proof {
            done = done + 1;
        }
    }
    (merged_groups, min_key, max_key)
}

/// Every summary of a complete merge of valid runs is made of valid
/// measurement records, and retains only valid records.
pub proof fn lemma_merged_summaries_valid(
    files: Seq<StatisticsFile>,
    mproj: MergeKeyProjection,
    kproj: KeyProjection,
    amount: Option<int>,
    min_key: int,
    max_key: int,
    merged: Seq<MergedStatisticsFile>,
)
    requires
        merged_group_ok(files, mproj, kproj, amount, min_key, max_key, merged),
        forall|i: int| 0 <= i < files.len() ==> (#[trigger] files[i]).statistics.valid(),
    ensures
        forall|m: int|
            0 <= m < merged.len() ==> (#[trigger] merged[m]).min_statistics.valid() && merged[
                m
            ].max_statistics.valid() && merged[m].mean_statistics.valid() && merged[
                m
            ].median_statistics.valid(),
        forall|m: int, i: int|
            0 <= m < merged.len() && 0 <= i < merged[m].contained_statistics@.len() ==> (
            #[trigger] merged[m].contained_statistics@[i]).valid(),
{
    assert forall|m: int|
        0 <= m < merged.len() implies (#[trigger] merged[m]).min_statistics.valid() && merged[
        m
    ].max_statistics.valid() && merged[m].mean_statistics.valid() && merged[
        m
    ].median_statistics.valid() && (forall|i: int|
        0 <= i < merged[m].contained_statistics@.len() ==> (
        #[trigger] merged[m].contained_statistics@[i]).valid()) by {
        assert(is_merged_part(merged[m], files, mproj, kproj, amount, min_key, max_key));
        let (mk, coord) = choose|mk: ParametersView, coord: int|
            {
                let part = #[trigger] files_in_part(
                    files,
                    mproj,
                    kproj,
                    amount,
                    min_key,
                    max_key,
                    mk,
                    coord,
                );
                part.len() > 0 && is_summary_of(
                    merged[m],
                    part.map_values(|f: StatisticsFile| f.statistics),
                    spec_rep_key(coord, amount, min_key, max_key),
                )
            };
        let part = files_in_part(files, mproj, kproj, amount, min_key, max_key, mk, coord);
        let part_stats = part.map_values(|f: StatisticsFile| f.statistics);
        lemma_files_in_part_elements(files, mproj, kproj, amount, min_key, max_key, mk, coord);
        assert forall|i: int| 0 <= i < part_stats.len() implies (
        #[trigger] part_stats[i]).valid() by {
            assert(part_stats[i] == part[i].statistics);
            assert(files.contains(part[i]));
            let idx = choose|idx: int| 0 <= idx < files.len() && files[idx] == part[i];
        }
        crate::statistics_file::lemma_summary_of_valid_records(
            merged[m],
            part_stats,
            spec_rep_key(coord, amount, min_key, max_key),
        );
    }
}

/// Widens a degenerate key range: when all keys coincide, the axis is
/// widened by half a unit on each side so that the chart range is not
/// empty; a proper range stays unchanged.
pub fn widen_degenerate_key_range(min_key: i128, max_key: i128) -> (r: (i128, i128))
    requires
        min_key <= max_key,
        -(u64::MAX as i128) * SCALE <= min_key,
        max_key <= u64::MAX as i128 * SCALE,
    ensures
        min_key == max_key ==> r == (((min_key - SCALE / 2) as i128, (max_key + SCALE / 2) as i128)),
        min_key != max_key ==> r == ((min_key, max_key)),
        r.0 < r.1 || min_key < max_key,
{
    if min_key == max_key {
        (min_key - SCALE / 2, max_key + SCALE / 2)
    } else {
        (min_key, max_key)
    }
}

/// Every key among [`all_keys`] is within the cost range.
proof fn lemma_all_keys_bounds(groups: Seq<Group>, proj: KeyProjection)
    ensures
        forall|k: int|
            0 <= k < all_keys(groups, proj).len() ==> 0 <= #[trigger] all_keys(groups, proj)[k]
                <= u64::MAX as i128 * SCALE,
    decreases groups.len(),
{
    if groups.len() > 0 {
        lemma_all_keys_bounds(groups.drop_last(), proj);
        let rest = all_keys(groups.drop_last(), proj);
        let last_keys = groups.last().files@.map_values(
            |f: StatisticsFile| spec_key_of(f.parameters@, proj),
        );
        assert forall|k: int|
            0 <= k < all_keys(groups, proj).len() implies 0 <= #[trigger] all_keys(groups, proj)[k]
            <= u64::MAX as i128 * SCALE by {
            if k < rest.len() {
                assert(all_keys(groups, proj)[k] == rest[k]);
            } else {
                assert(all_keys(groups, proj)[k] == last_keys[k - rest.len()]);
                lemma_key_of_bounds(groups.last().files@[k - rest.len()], proj);
            }
        }
    }
}

proof fn lemma_total_part_files_update(parts: Seq<MergePartition>, t: int, p2: MergePartition)
    requires
        0 <= t < parts.len(),
        p2.files@.len() == parts[t].files@.len() + 1,
    ensures
        total_part_files(parts.update(t, p2)) == total_part_files(parts) + 1,
    decreases parts.len(),
{
    if t == parts.len() - 1 {
        assert(parts.update(t, p2).drop_last() =~= parts.drop_last());
        assert(parts.update(t, p2).last() == p2);
    } else {
        assert(parts.update(t, p2).drop_last() =~= parts.drop_last().update(t, p2));
        assert(parts.update(t, p2).last() == parts.last());
        lemma_total_part_files_update(parts.drop_last(), t, p2);
    }
}

} // verus!
