//! The report-specific run selections: which subset of the loaded runs a
//! named chart is drawn from.

use vstd::prelude::*;

use crate::statistics_file::StatisticsFile;
use crate::text::str_eq;

verus! {

/// Two runs carry the same content: equal measurements and equal
/// identity parameters.
pub open spec fn file_eq(a: StatisticsFile, b: StatisticsFile) -> bool {
    a.statistics == b.statistics && a.parameters@ == b.parameters@
}

/// Whether a run belongs to the tsalign report: it was produced by the
/// `tsalign` aligner.
pub open spec fn spec_is_tsalign_file(f: StatisticsFile) -> bool {
    f.parameters.aligner@ == "tsalign"@
}

/// Whether a run belongs to the ari email report: it aligned the
/// `ari_email` sequence with the ari email strategy selection or with the
/// `fpa` aligner.
pub open spec fn spec_is_ari_email_file(f: StatisticsFile) -> bool {
    (f.parameters.strategies.spec_is_ari_email() || f.parameters.aligner@ == "fpa"@)
        && f.parameters.test_sequence_name@ == "ari_email"@
}

/// The runs of `files` produced by the `tsalign` aligner, in input order.
pub open spec fn spec_filter_tsalign(files: Seq<StatisticsFile>) -> Seq<StatisticsFile>
    decreases files.len(),
{
    if files.len() == 0 {
        Seq::<StatisticsFile>::empty()
    } else if spec_is_tsalign_file(files.last()) {
        spec_filter_tsalign(files.drop_last()).push(files.last())
    } else {
        spec_filter_tsalign(files.drop_last())
    }
}

/// The runs of `files` belonging to the ari email report, in input order.
pub open spec fn spec_filter_ari_email(files: Seq<StatisticsFile>) -> Seq<StatisticsFile>
    decreases files.len(),
{
    if files.len() == 0 {
        Seq::<StatisticsFile>::empty()
    } else if spec_is_ari_email_file(files.last()) {
        spec_filter_ari_email(files.drop_last()).push(files.last())
    } else {
        spec_filter_ari_email(files.drop_last())
    }
}

/// Whether a run belongs to the tsalign report.
pub fn is_tsalign_file(f: &StatisticsFile) -> (r: bool)
    ensures
        r == spec_is_tsalign_file(*f),
{
    str_eq(f.parameters.aligner.as_str(), "tsalign")
}

/// Whether a run belongs to the ari email report.
pub fn is_ari_email_file(f: &StatisticsFile) -> (r: bool)
    ensures
        r == spec_is_ari_email_file(*f),
{
    (f.parameters.strategies.is_ari_email() || str_eq(f.parameters.aligner.as_str(), "fpa"))
        && str_eq(f.parameters.test_sequence_name.as_str(), "ari_email")
}

/// Selects the runs of the tsalign report, in input order; the selected
/// copies carry the same content as the originals.
pub fn filter_tsalign(files: &Vec<StatisticsFile>) -> (r: Vec<StatisticsFile>)
    ensures
        r@.len() == spec_filter_tsalign(files@).len(),
        forall|i: int|
            0 <= i < r@.len() ==> file_eq(#[trigger] r@[i], spec_filter_tsalign(files@)[i]),
{
    let mut r: Vec<StatisticsFile> = Vec::new();
    let mut i: usize = 0;
    while i < files.len()
        invariant
            i <= files@.len(),
            r@.len() == spec_filter_tsalign(files@.take(i as int)).len(),
            forall|k: int|
                0 <= k < r@.len() ==> file_eq(
                    #[trigger] r@[k],
                    spec_filter_tsalign(files@.take(i as int))[k],
                ),
        decreases files.len() - i,
    {
        let ghost prev = files@.take(i as int);
        let ghost now = files@.take(i as int + 1);
        proof {
            assert(now.drop_last() =~= prev);
            assert(now.last() == files@[i as int]);
        }
        if is_tsalign_file(&files[i]) {
            r.push(files[i].clone());
        }
        i += 1;
    }
    proof {
        assert(files@.take(files@.len() as int) =~= files@);
    }
    r
}

/// Selects the runs of the ari email report, in input order; the
/// selected copies carry the same content as the originals.
pub fn filter_ari_email(files: &Vec<StatisticsFile>) -> (r: Vec<StatisticsFile>)
    ensures
        r@.len() == spec_filter_ari_email(files@).len(),
        forall|i: int|
            0 <= i < r@.len() ==> file_eq(#[trigger] r@[i], spec_filter_ari_email(files@)[i]),
{
    let mut r: Vec<StatisticsFile> = Vec::new();
    let mut i: usize = 0;
    while i < files.len()
        invariant
            i <= files@.len(),
            r@.len() == spec_filter_ari_email(files@.take(i as int)).len(),
            forall|k: int|
                0 <= k < r@.len() ==> file_eq(
                    #[trigger] r@[k],
                    spec_filter_ari_email(files@.take(i as int))[k],
                ),
        decreases files.len() - i,
    {
        let ghost prev = files@.take(i as int);
        let ghost now = files@.take(i as int + 1);
        proof {
            assert(now.drop_last() =~= prev);
            assert(now.last() == files@[i as int]);
        }
        if is_ari_email_file(&files[i]) {
            r.push(files[i].clone());
        }
        i += 1;
    }
    proof {
        assert(files@.take(files@.len() as int) =~= files@);
    }
    r
}

} // verus!
