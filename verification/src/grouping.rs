//! Partitioning of runs into named groups by a projection of their
//! identity. A grouping pass is order-preserving inside each group, orders
//! the groups by name, and demands that all groups come out with the same
//! number of runs: unequal sizes signal a malformed experiment matrix and
//! are reported as an error carrying every group's name and size.

use vstd::prelude::*;

use crate::statistics_file::StatisticsFile;
use crate::statistics_file::alignment_strategies::AlignmentStrategyStringifyer;
use crate::statistics_file::alignment_strategies::spec_stringify;
use crate::text::spec_digits;
use crate::text::digits_string;
use crate::text::lex_leq;
use crate::text::lex_lt;
use crate::text::str_eq;
use crate::text::str_lt;
use crate::text::lemma_lex_total;
use crate::text::lemma_lex_lt_transitive;
use vstd::string::StringExecFns;
use vstd::multiset::Multiset;
use vstd::seq_lib::lemma_multiset_commutative;

verus! {

/// The group-name projection of a grouping pass.
pub enum GroupNameProjection {
    /// Group by the aligner that produced the run.
    Aligner,
    /// Group by test sequence name, sequence length and the strategy
    /// selections that differ between runs, as
    /// `"<sequence> len <length><strategies>"`.
    SequenceLengthStrategies(AlignmentStrategyStringifyer),
}

/// The group name of one run under a projection.
pub open spec fn spec_group_name(file: StatisticsFile, proj: GroupNameProjection) -> Seq<char> {
    match proj {
        GroupNameProjection::Aligner => file.parameters.aligner@,
        GroupNameProjection::SequenceLengthStrategies(stringifyer) => {
            file.parameters.test_sequence_name@ + " len "@ + spec_digits(
                file.parameters.length as nat,
            ) + spec_stringify(stringifyer.relevant_strategies@, file.parameters.strategies)
        },
    }
}

/// Renders the group name of one run under a projection.
pub fn group_name(file: &StatisticsFile, proj: &GroupNameProjection) -> (r: String)
    ensures
        r@ == spec_group_name(*file, *proj),
{
    match proj {
        GroupNameProjection::Aligner => file.parameters.aligner.clone(),
        GroupNameProjection::SequenceLengthStrategies(stringifyer) => {
            let mut s = file.parameters.test_sequence_name.clone();
            s.append(" len ");
            let digits = digits_string(file.parameters.length as u128);
            s.append(digits.as_str());
            let tail = stringifyer.stringify(file);
            s.append(tail.as_str());
            proof {
                assert(s@ =~= spec_group_name(*file, *proj));
            }
            s
        },
    }
}

/// A named group of runs.
#[derive(Debug)]
pub struct Group {
    /// The group's name under the grouping projection.
    pub name: String,
    /// The group's runs, in input order.
    pub files: Vec<StatisticsFile>,
}

/// The runs of `files` whose group name is `name`, in input order.
pub open spec fn files_named(
    files: Seq<StatisticsFile>,
    proj: GroupNameProjection,
    name: Seq<char>,
) -> Seq<StatisticsFile>
    decreases files.len(),
{
    if files.len() == 0 {
        Seq::<StatisticsFile>::empty()
    } else if spec_group_name(files.last(), proj) == name {
        files_named(files.drop_last(), proj, name).push(files.last())
    } else {
        files_named(files.drop_last(), proj, name)
    }
}

/// Whether `groups` is the partition of `files` under `proj`: each group
/// holds exactly the runs carrying its name in input order, no group is
/// empty, group names are pairwise distinct, and every run's name is the
/// name of some group.
pub open spec fn group_partition_ok(
    files: Seq<StatisticsFile>,
    proj: GroupNameProjection,
    groups: Seq<Group>,
) -> bool {
    &&& forall|g: int|
        0 <= g < groups.len() ==> (#[trigger] groups[g]).files@ == files_named(
            files,
            proj,
            groups[g].name@,
        )
    &&& forall|g: int| 0 <= g < groups.len() ==> (#[trigger] groups[g]).files@.len() > 0
    &&& forall|g1: int, g2: int|
        0 <= g1 < groups.len() && 0 <= g2 < groups.len() && g1 != g2 ==> (#[trigger] groups[
            g1
        ]).name@ != (#[trigger] groups[g2]).name@
    &&& forall|i: int|
        0 <= i < files.len() ==> exists|g: int|
            0 <= g < groups.len() && spec_group_name(#[trigger] files[i], proj) == (
            #[trigger] groups[g]).name@
}

/// Whether all groups of the partition of `files` under `proj` hold the
/// same number of runs.
pub open spec fn equal_group_sizes(files: Seq<StatisticsFile>, proj: GroupNameProjection) -> bool {
    forall|i: int, j: int|
        0 <= i < files.len() && 0 <= j < files.len() ==> files_named(
            files,
            proj,
            spec_group_name(#[trigger] files[i], proj),
        ).len() == files_named(files, proj, spec_group_name(#[trigger] files[j], proj)).len()
}

/// The diagnostic of a failed grouping pass: the whole partition, so that
/// every group's name and size can be reported.
#[derive(Debug)]
pub struct GroupSizeMismatch {
    /// The partition whose group sizes differ.
    pub groups: Vec<Group>,
}

/// One unfolding step of [`files_named`] at the last element.
proof fn lemma_files_named_step(files: Seq<StatisticsFile>, proj: GroupNameProjection, name: Seq<char>)
    requires
        files.len() > 0,
    ensures
        files_named(files, proj, name) == (if spec_group_name(files.last(), proj) == name {
            files_named(files.drop_last(), proj, name).push(files.last())
        } else {
            files_named(files.drop_last(), proj, name)
        }),
{
}

/// No run of `files` carries `name`, so nothing is named `name`.
proof fn lemma_files_named_empty(files: Seq<StatisticsFile>, proj: GroupNameProjection, name: Seq<char>)
    requires
        forall|i: int| 0 <= i < files.len() ==> spec_group_name(#[trigger] files[i], proj) != name,
    ensures
        files_named(files, proj, name) == Seq::<StatisticsFile>::empty(),
    decreases files.len(),
{
    if files.len() > 0 {
        assert(forall|i: int|
            0 <= i < files.drop_last().len() ==> #[trigger] files.drop_last()[i] == files[i]);
        lemma_files_named_empty(files.drop_last(), proj, name);
        lemma_files_named_step(files, proj, name);
        assert(spec_group_name(files.last(), proj) != name);
    }
}

fn partition_by_name(statistics_files: Vec<StatisticsFile>, proj: &GroupNameProjection) -> (r: Vec<
    Group,
>)
    ensures
        group_partition_ok(statistics_files@, *proj, r@),
{
    let ghost orig = statistics_files@;
    let mut files = statistics_files;
    let mut groups: Vec<Group> = Vec::new();
    let ghost mut processed: int = 0;
    proof {
        assert(files@ =~= orig.skip(0));
        assert(orig.take(0) =~= Seq::<StatisticsFile>::empty());
    }
    while files.len() > 0
        invariant
            0 <= processed <= orig.len(),
            files@ == orig.skip(processed),
            group_partition_ok(orig.take(processed), *proj, groups@),
        decreases files.len(),
    {
        proof {
            assert(orig.skip(processed)[0] == orig[processed]);
        }
        let f = files.remove(0);
        proof {
            assert(files@ =~= orig.skip(processed + 1));
        }
        let name = group_name(&f, proj);
        let mut target: Option<usize> = None;
        let mut gi: usize = 0;
        while gi < groups.len() && target.is_none()
            invariant
                gi <= groups@.len(),
                match target {
                    Option::Some(t) => t < groups@.len() && groups@[t as int].name@ == name@,
                    Option::None => forall|k: int|
                        0 <= k < gi ==> (#[trigger] groups@[k]).name@ != name@,
                },
            decreases groups.len() - gi + (if target is None { 1int } else { 0int }),
        {
            if str_eq(groups[gi].name.as_str(), name.as_str()) {
                target = Some(gi);
            } else {
                gi += 1;
            }
        }
        let ghost prev = orig.take(processed);
        let ghost now = orig.take(processed + 1);
        let ghost gs0 = groups@;
        proof {
            assert(now.drop_last() =~= prev);
            assert(now.last() == f);
        }
        match target {
            Some(t) => {
                let mut g = groups.remove(t);
                g.files.push(f);
                let ghost g2 = g;
                groups.insert(t, g);
                proof {
                    assert(groups@ =~= gs0.update(t as int, g2));
                    assert(g2.name@ == name@);
                    assert(g2.files@ == gs0[t as int].files@.push(f));
                    assert forall|gg: int| 0 <= gg < groups@.len() implies (
                    #[trigger] groups@[gg]).files@ == files_named(now, *proj, groups@[gg].name@)
                        by {
                        lemma_files_named_step(now, *proj, groups@[gg].name@);
                        if gg == t {
                            assert(spec_group_name(f, *proj) == groups@[gg].name@);
                        } else {
                            assert(groups@[gg] == gs0[gg]);
                            assert(gs0[gg].name@ != name@);
                        }
                    }
                    assert(forall|gg: int|
                        0 <= gg < gs0.len() ==> (#[trigger] groups@[gg]).name@ == gs0[gg].name@);
                    assert(groups@[t as int].name@ == name@);
                    assert(forall|g1: int, g2i: int|
                        0 <= g1 < groups@.len() && 0 <= g2i < groups@.len() && g1 != g2i ==> (
                        #[trigger] groups@[g1]).name@ != (#[trigger] groups@[g2i]).name@);
                    assert(forall|gg: int|
                        0 <= gg < groups@.len() ==> (#[trigger] groups@[gg]).files@.len() > 0);
                }
            },
            None => {
                let mut only: Vec<StatisticsFile> = Vec::new();
                only.push(f);
                groups.push(Group { name, files: only });
                proof {
                    assert forall|k: int|
                        0 <= k < prev.len() implies spec_group_name(#[trigger] prev[k], *proj)
                        != name@ by {
                        let gg = choose|gg: int|
                            0 <= gg < gs0.len() && spec_group_name(prev[k], *proj) == gs0[gg].name@;
                        assert(gs0[gg].name@ != name@);
                    }
                    lemma_files_named_empty(prev, *proj, name@);
                    assert forall|gg: int| 0 <= gg < groups@.len() implies (
                    #[trigger] groups@[gg]).files@ == files_named(now, *proj, groups@[gg].name@)
                        by {
                        lemma_files_named_step(now, *proj, groups@[gg].name@);
                        if gg < gs0.len() {
                            assert(groups@[gg] == gs0[gg]);
                            assert(gs0[gg].name@ != name@);
                        } else {
                            assert(groups@[gg].name@ == name@);
                            assert(groups@[gg].files@ =~= files_named(prev, *proj, name@).push(f));
                        }
                    }
                    assert(forall|gg: int|
                        0 <= gg < gs0.len() ==> (#[trigger] groups@[gg]).name@ == gs0[gg].name@);
                    assert(groups@[groups@.len() - 1].name@ == name@);
                    assert(forall|g1: int, g2i: int|
                        0 <= g1 < groups@.len() && 0 <= g2i < groups@.len() && g1 != g2i ==> (
                        #[trigger] groups@[g1]).name@ != (#[trigger] groups@[g2i]).name@);
                    assert(forall|gg: int|
                        0 <= gg < groups@.len() ==> (#[trigger] groups@[gg]).files@.len() > 0);
                }
            },
        }
        proof {
            assert(exists|g: int| 0 <= g < groups@.len() && (#[trigger] groups@[g]).name@ == name@);
            assert forall|k: int|
                0 <= k < processed + 1 implies exists|g: int|
                    0 <= g < groups@.len() && spec_group_name(#[trigger] now[k], *proj) == (
                    #[trigger] groups@[g]).name@ by {
                if k < processed {
                    assert(prev[k] == now[k]);
                    let g0 = choose|g0: int|
                        0 <= g0 < gs0.len() && spec_group_name(prev[k], *proj) == gs0[g0].name@;
                    assert(groups@[g0].name@ == gs0[g0].name@);
                } else {
                    assert(now[k] == f);
                    let g1 = choose|g1: int|
                        0 <= g1 < groups@.len() && (#[trigger] groups@[g1]).name@ == name@;
                    assert(spec_group_name(f, *proj) == groups@[g1].name@);
                }
            }
            processed = processed + 1;
        }
    }
    proof {
        assert(orig.take(processed) =~= orig);
    }
    groups
}

/// Nondecreasing lexicographic order of the group names.
pub open spec fn sorted_by_name(groups: Seq<Group>) -> bool {
    forall|g1: int, g2: int|
        0 <= g1 <= g2 < groups.len() ==> lex_leq(
            (#[trigger] groups[g1]).name@,
            (#[trigger] groups[g2]).name@,
        )
}

/// Being the partition of `files` is kept under reordering of the groups.
proof fn lemma_partition_ok_permutation(
    files: Seq<StatisticsFile>,
    proj: GroupNameProjection,
    gs1: Seq<Group>,
    gs2: Seq<Group>,
)
    requires
        group_partition_ok(files, proj, gs1),
        gs2.to_multiset() == gs1.to_multiset(),
    ensures
        group_partition_ok(files, proj, gs2),
{
    broadcast use vstd::seq_lib::group_to_multiset_ensures;

    assert forall|g: int| 0 <= g < gs2.len() implies (#[trigger] gs2[g]).files@ == files_named(
        files,
        proj,
        gs2[g].name@,
    ) && gs2[g].files@.len() > 0 by {
        assert(gs2.to_multiset().count(gs2[g]) > 0);
        assert(gs1.contains(gs2[g]));
        let k = gs1.index_of(gs2[g]);
        assert(gs1[k] == gs2[g]);
    }
    assert(gs1.no_duplicates()) by {
        assert forall|a: int, b: int|
            0 <= a < gs1.len() && 0 <= b < gs1.len() && a != b implies gs1[a] != gs1[b] by {
            assert(gs1[a].name@ != gs1[b].name@);
        }
    }
    assert forall|g1: int, g2: int|
        0 <= g1 < gs2.len() && 0 <= g2 < gs2.len() && g1 != g2 implies (
    #[trigger] gs2[g1]).name@ != (#[trigger] gs2[g2]).name@ by {
        if gs2[g1].name@ == gs2[g2].name@ {
            if gs2[g1] == gs2[g2] {
                assert(!gs2.no_duplicates());
                gs1.lemma_multiset_has_no_duplicates();
                assert(gs2.to_multiset().count(gs2[g1]) == 1);
                let removed = gs2.remove(g1);
                assert(removed.to_multiset() =~= gs2.to_multiset().remove(gs2[g1]));
                if g2 > g1 {
                    assert(removed[g2 - 1] == gs2[g2]);
                    assert(removed.contains(gs2[g2]));
                } else {
                    assert(removed[g2] == gs2[g2]);
                    assert(removed.contains(gs2[g2]));
                }
                assert(removed.to_multiset().count(gs2[g1]) > 0);
                assert(false);
            } else {
                assert(gs2.contains(gs2[g1])) by {
                    assert(gs2[g1] == gs2[g1]);
                }
                assert(gs2.contains(gs2[g2])) by {
                    assert(gs2[g2] == gs2[g2]);
                }
                assert(gs2.to_multiset().count(gs2[g1]) > 0);
                assert(gs2.to_multiset().count(gs2[g2]) > 0);
                assert(gs1.contains(gs2[g1]));
                assert(gs1.contains(gs2[g2]));
                let k1 = gs1.index_of(gs2[g1]);
                let k2 = gs1.index_of(gs2[g2]);
                assert(k1 != k2);
                assert(gs1[k1].name@ != gs1[k2].name@);
                assert(false);
            }
        }
    }
    assert forall|i: int|
        0 <= i < files.len() implies exists|g: int|
            0 <= g < gs2.len() && spec_group_name(#[trigger] files[i], proj) == (
            #[trigger] gs2[g]).name@ by {
        let g1 = choose|g1: int|
            0 <= g1 < gs1.len() && spec_group_name(files[i], proj) == gs1[g1].name@;
        assert(gs1.to_multiset().count(gs1[g1]) > 0);
        assert(gs2.contains(gs1[g1]));
        let g2 = gs2.index_of(gs1[g1]);
        assert(spec_group_name(files[i], proj) == gs2[g2].name@);
    }
}

fn sort_groups_by_name(groups: Vec<Group>) -> (r: Vec<Group>)
    ensures
        r@.to_multiset() == groups@.to_multiset(),
        sorted_by_name(r@),
{
    broadcast use vstd::seq_lib::group_to_multiset_ensures;

    let ghost orig = groups@;
    let mut rest = groups;
    let mut r: Vec<Group> = Vec::new();
    while rest.len() > 0
        invariant
            r@.to_multiset().add(rest@.to_multiset()) =~= orig.to_multiset(),
            sorted_by_name(r@),
        decreases rest.len(),
    {
        let ghost rest0 = rest@;
        let v = rest.remove(0);
        proof {
            assert(rest@ =~= rest0.remove(0));
            assert(rest@.to_multiset() =~= rest0.to_multiset().remove(v));
        }
        let mut j: usize = 0;
        while j < r.len() && !str_lt(v.name.as_str(), r[j].name.as_str())
            invariant
                j <= r@.len(),
                forall|k: int| 0 <= k < j ==> !lex_lt(v.name@, (#[trigger] r@[k]).name@),
            decreases r.len() - j,
        {
            j += 1;
        }
        let ghost prefix = r@.take(j as int);
        let ghost suffix = r@.skip(j as int);
        let ghost r0 = r@;
        r.insert(j, v);
        proof {
            assert(r@ =~= prefix + seq![v] + suffix);
            lemma_multiset_commutative(prefix + seq![v], suffix);
            lemma_multiset_commutative(prefix, seq![v]);
            lemma_multiset_commutative(prefix, suffix);
            assert(seq![v].to_multiset() =~= Multiset::<Group>::empty().insert(v)) by {
                assert(seq![v].drop_last() =~= Seq::<Group>::empty());
            }
            assert(r@.to_multiset() =~= r0.to_multiset().insert(v));
            assert(r@.to_multiset().add(rest@.to_multiset()) =~= orig.to_multiset());
            assert forall|g1: int, g2: int|
                0 <= g1 <= g2 < r@.len() implies lex_leq(
                (#[trigger] r@[g1]).name@,
                (#[trigger] r@[g2]).name@,
            ) by {
                let n1 = r@[g1].name@;
                let n2 = r@[g2].name@;
                if g1 < j && g2 == j {
                    lemma_lex_total(v.name@, n1);
                } else if g1 == j && g2 > j {
                    let old_n2 = r0[g2 - 1].name@;
                    if j < r0.len() {
                        assert(lex_lt(v.name@, r0[j as int].name@));
                        if r0[j as int].name@ == old_n2 {
                        } else {
                            lemma_lex_lt_transitive(v.name@, r0[j as int].name@, old_n2);
                        }
                    }
                } else if g1 < j && g2 > j {
                    assert(n1 == r0[g1].name@ && n2 == r0[g2 - 1].name@);
                } else if g1 == j && g2 == j {
                    assert(lex_leq(n1, n2));
                }
            }
        }
    }
    proof {
        assert(rest@.to_multiset() =~= Multiset::<Group>::empty());
        assert(r@.to_multiset() =~= r@.to_multiset().add(rest@.to_multiset()));
    }
    r
}

/// Every run named `name` in `files` is a run of `files` carrying `name`.
proof fn lemma_files_named_elements(files: Seq<StatisticsFile>, proj: GroupNameProjection, name: Seq<char>)
    ensures
        forall|k: int|
            0 <= k < files_named(files, proj, name).len() ==> files.contains(
                #[trigger] files_named(files, proj, name)[k],
            ) && spec_group_name(files_named(files, proj, name)[k], proj) == name,
    decreases files.len(),
{
    if files.len() > 0 {
        let whole = files_named(files, proj, name);
        let rec = files_named(files.drop_last(), proj, name);
        lemma_files_named_elements(files.drop_last(), proj, name);
        assert forall|k: int|
            0 <= k < whole.len() implies files.contains(#[trigger] whole[k]) && spec_group_name(
            whole[k],
            proj,
        ) == name by {
            if spec_group_name(files.last(), proj) == name && k == whole.len() - 1 {
                assert(whole[k] == files.last());
                assert(files[files.len() - 1] == files.last());
            } else {
                assert(whole[k] == rec[k]);
                assert(files.drop_last().contains(rec[k]));
                let idx = choose|idx: int|
                    0 <= idx < files.drop_last().len() && files.drop_last()[idx] == rec[k];
                assert(files[idx] == rec[k]);
            }
        }
    }
}

/// Partitions the runs into named groups under the projection: inside a
/// group the runs keep their input order, and the groups are ordered by
/// name. All groups must come out with the same number of runs; a
/// violation signals a malformed experiment matrix and is returned as an
/// error carrying the whole partition for diagnosis.
pub fn group_files(statistics_files: Vec<StatisticsFile>, proj: &GroupNameProjection) -> (r:
    Result<Vec<Group>, GroupSizeMismatch>)
    requires
        statistics_files@.len() > 0,
    ensures
        match r {
            Ok(groups) => {
                &&& group_partition_ok(statistics_files@, *proj, groups@)
                &&& sorted_by_name(groups@)
                &&& equal_group_sizes(statistics_files@, *proj)
                &&& groups@.len() > 0
                &&& forall|g: int|
                    0 <= g < groups@.len() ==> (#[trigger] groups@[g]).files@.len()
                        == groups@[0].files@.len()
            },
            Err(e) => {
                &&& group_partition_ok(statistics_files@, *proj, e.groups@)
                &&& sorted_by_name(e.groups@)
                &&& !equal_group_sizes(statistics_files@, *proj)
            },
        },
{
    let ghost files_seq = statistics_files@;
    let unsorted = partition_by_name(statistics_files, proj);
    let ghost unsorted_seq = unsorted@;
    let groups = sort_groups_by_name(unsorted);
    proof {
        lemma_partition_ok_permutation(files_seq, *proj, unsorted_seq, groups@);
        assert(groups@.len() > 0) by {
            assert(files_seq.len() > 0);
            let g0 = choose|g0: int|
                0 <= g0 < groups@.len() && spec_group_name(files_seq[0], *proj)
                    == groups@[g0].name@;
        }
    }
    let expected = groups[0].files.len();
    let mut g: usize = 1;
    while g < groups.len()
        invariant
            1 <= g <= groups@.len(),
            groups@.len() > 0,
            expected == groups@[0].files@.len(),
            group_partition_ok(files_seq, *proj, groups@),
            sorted_by_name(groups@),
            forall|k: int| 0 <= k < g ==> (#[trigger] groups@[k]).files@.len() == expected,
        decreases groups.len() - g,
    {
        if groups[g].files.len() != expected {
            proof {
                let name_g = groups@[g as int].name@;
                let name_0 = groups@[0].name@;
                lemma_files_named_elements(files_seq, *proj, name_g);
                lemma_files_named_elements(files_seq, *proj, name_0);
                let fa = groups@[g as int].files@[0];
                let fb = groups@[0].files@[0];
                assert(files_seq.contains(fa) && spec_group_name(fa, *proj) == name_g);
                assert(files_seq.contains(fb) && spec_group_name(fb, *proj) == name_0);
                let ia = choose|ia: int| 0 <= ia < files_seq.len() && files_seq[ia] == fa;
                let ib = choose|ib: int| 0 <= ib < files_seq.len() && files_seq[ib] == fb;
                assert(files_named(files_seq, *proj, spec_group_name(files_seq[ia], *proj)).len()
                    != files_named(files_seq, *proj, spec_group_name(files_seq[ib], *proj)).len());
            }
            return Err(GroupSizeMismatch { groups });
        }
        g += 1;
    }
    proof {
        assert forall|i: int, j: int|
            0 <= i < files_seq.len() && 0 <= j < files_seq.len() implies files_named(
            files_seq,
            *proj,
            spec_group_name(#[trigger] files_seq[i], *proj),
        ).len() == files_named(
            files_seq,
            *proj,
            spec_group_name(#[trigger] files_seq[j], *proj),
        ).len() by {
            let gi = choose|gi: int|
                0 <= gi < groups@.len() && spec_group_name(files_seq[i], *proj)
                    == groups@[gi].name@;
            let gj = choose|gj: int|
                0 <= gj < groups@.len() && spec_group_name(files_seq[j], *proj)
                    == groups@[gj].name@;
            assert(files_named(files_seq, *proj, spec_group_name(files_seq[i], *proj))
                == groups@[gi].files@);
            assert(files_named(files_seq, *proj, spec_group_name(files_seq[j], *proj))
                == groups@[gj].files@);
        }
    }
    Ok(groups)
}

} // verus!
