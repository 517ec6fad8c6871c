//! Rendering of the runs' runtime and memory readings as CSV text, one
//! row per run, for consumption outside the plots.

use vstd::prelude::*;
use vstd::string::StringExecFns;

use crate::decimal::spec_render_fixed;
use crate::decimal::render_fixed;
use crate::statistics_file::StatisticsFile;

verus! {

/// One CSV row: the run's aligner, runtime in seconds and memory in
/// bytes, comma-separated.
pub open spec fn spec_csv_row(f: StatisticsFile) -> Seq<char> {
    f.parameters.aligner@ + ","@ + spec_render_fixed(f.statistics.runtime as int) + ","@
        + spec_render_fixed(f.statistics.memory as int) + "\n"@
}

/// The whole CSV text: a header line followed by one row per run, in
/// input order.
pub open spec fn spec_csv(files: Seq<StatisticsFile>) -> Seq<char>
    decreases files.len(),
{
    if files.len() == 0 {
        "aligner,runtime_seconds,memory_bytes\n"@
    } else {
        spec_csv(files.drop_last()) + spec_csv_row(files.last())
    }
}

/// Renders the runs' aligner, runtime and memory as CSV text with a
/// header line.
pub fn output_runtime_memory_csv(statistics_files: &Vec<StatisticsFile>) -> (r: String)
    requires
        forall|i: int|
            0 <= i < statistics_files@.len() ==> (#[trigger] statistics_files@[i]).statistics.valid(),
    ensures
        r@ == spec_csv(statistics_files@),
{
    let mut out = String::from_str("aligner,runtime_seconds,memory_bytes\n");
    let mut i: usize = 0;
    while i < statistics_files.len()
        invariant
            i <= statistics_files@.len(),
            forall|k: int|
                0 <= k < statistics_files@.len() ==> (#[trigger] statistics_files@[k]).statistics.valid(),
            out@ == spec_csv(statistics_files@.take(i as int)),
        decreases statistics_files.len() - i,
    {
        let file = &statistics_files[i];
        out.append(file.parameters.aligner.as_str());
        out.append(",");
        let runtime_text = render_fixed(file.statistics.runtime);
        out.append(runtime_text.as_str());
        out.append(",");
        let memory_text = render_fixed(file.statistics.memory);
        out.append(memory_text.as_str());
        out.append("\n");
        proof {
            let taken = statistics_files@.take(i as int + 1);
            assert(taken.drop_last() =~= statistics_files@.take(i as int));
            assert(taken.last() == statistics_files@[i as int]);
            assert(out@ =~= spec_csv(taken));
        }
        i += 1;
    }
    proof {
        assert(statistics_files@.take(statistics_files@.len() as int) =~= statistics_files@);
    }
    out
}

} // verus!
