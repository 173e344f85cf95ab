//! One function's whole analysis: run the search over the engine's step
//! outcomes, then correlate the longest path against the listing model.

use vstd::prelude::*;

use crate::correlate::{correlation_matches, count_instructions, CorrelationResult};
use crate::disasm::{index_wf, DisassemblyModel};
use crate::path::PathEntry;
use crate::search::{event_ok, find_longest_path, spec_run, SearchError, StepEvent};
use crate::util::seq_views;

verus! {

/// What one function's analysis reports: the longest path's length in
/// intermediate-representation instructions, its snapshot, and its
/// machine-code correlation.
#[derive(Debug, PartialEq, Eq)]
pub struct AnalysisReport {
    pub ir_length: u64,
    pub snapshot: Vec<PathEntry>,
    pub correlation: CorrelationResult,
}

/// Analyze one function: the longest completed path's length and
/// snapshot as the search determines them, and the snapshot's
/// deduplicated machine-instruction trace and count against the model;
/// or the error that ended the search.
pub fn analyze(events: Vec<StepEvent>, model: &DisassemblyModel) -> (r: Result<
    AnalysisReport,
    SearchError,
>)
    requires
        forall|i: int| 0 <= i < events@.len() ==> event_ok(#[trigger] events@[i]),
        index_wf(seq_views(model.source_index)),
    ensures
        match r {
            Ok(report) => spec_run(events@) == Ok::<_, SearchError>((
                report.ir_length,
                report.snapshot,
            )) && correlation_matches(
                report.correlation,
                report.snapshot@,
                seq_views(model.source_index),
            ),
            Err(err) => spec_run(events@) == Err::<(u64, Vec<PathEntry>), _>(err),
        },
{
    match find_longest_path(events) {
        Ok(pair) => {
            let (ir_length, snapshot) = pair;
            let correlation = count_instructions(&snapshot, model);
            Ok(AnalysisReport { ir_length, snapshot, correlation })
        },
        Err(err) => Err(err),
    }
}

} // verus!
