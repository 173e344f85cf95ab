//! The longest-path search controller.
//!
//! An external exploration engine advances one path per step; each step's
//! outcome reaches the controller as a [`StepEvent`].  The controller
//! keeps the first snapshot of maximal length (a strictly longer path
//! replaces it; a tie keeps the earlier one), skips provably unreachable
//! paths, and runs the solver-timeout recovery protocol: unconstrain the
//! timed-out call site's callee, re-enqueue the most recent backtrack
//! point, and raise the solver level — once per run.  A second timeout,
//! an empty call stack, a missing backtrack point, or a backtrack point
//! still inside the timed-out frame is fatal.

use vstd::prelude::*;
use vstd::string::*;

use crate::path::{
    lemma_path_len_nonneg, loc_eq, loc_same, path_ir_length, path_wf, spec_path_len, Location,
    PathEntry,
};

verus! {

/// Why a search run ended without a usable result.
#[derive(Debug, PartialEq, Eq)]
pub enum SearchError {
    /// A solver timeout struck with no safe backtrack target: the call
    /// stack was empty, no backtrack point was pending, or the most
    /// recent one still lay inside the timed-out call frame.
    UnrecoverableBacktrack,
    /// A solver timeout struck while a recovery was already in progress.
    DoubleTimeout,
    /// The solver failed for a reason other than a timeout.
    SolverFailure { message: String },
    /// Any other fatal engine error.
    OtherFailure { message: String },
    /// Exploration was exhausted without one completed path.
    NoPathsFound,
}

/// What the engine reports of its most recent backtrack point: the top of
/// that point's own call stack, if it has one.
#[derive(Debug, PartialEq, Eq)]
pub struct BacktrackInfo {
    pub stack_top: Option<Location>,
}

/// One step outcome of the exploration engine, together with the engine
/// state the recovery protocol reads.
#[derive(Debug, PartialEq, Eq)]
pub enum StepEvent {
    /// A path ran to completion.
    Completed { path: Vec<PathEntry> },
    /// The step ended in a provably unreachable instruction: skipped.
    UnreachableInstruction,
    /// The constraint solver timed out.  `call_stack` is the current
    /// stack, most recent call last; `backtrack` describes the most
    /// recent pending backtrack point.
    SolverTimeout { call_stack: Vec<Location>, backtrack: Option<BacktrackInfo> },
    /// The solver failed for a reason other than a timeout.
    SolverFailure { message: String },
    /// Any other engine error.
    OtherFailure { message: String },
}

/// What the caller must do before the next step.
#[derive(Debug, PartialEq, Eq)]
pub enum Directive {
    /// Step again.
    Continue,
    /// Recovery: treat the next invocation of this call site's callee as
    /// taking fully symbolic inputs, re-enqueue the most recent backtrack
    /// point, and step again.
    Recover { unconstrain: Location },
}

/// The controller's state across steps of one run.
pub struct SearchState {
    /// Length and snapshot of the longest completed path so far.
    pub longest: Option<(u64, Vec<PathEntry>)>,
    /// A timeout recovery has been performed in this run.
    pub recovery_in_progress: bool,
    /// Depth counter, in lock-step with the number of pending backtrack
    /// points the controller has re-enqueued.
    pub solver_level: u64,
    /// Call site whose callee's next invocation runs unconstrained;
    /// consumed once.
    pub pending_unconstrain: Option<Location>,
}

/// An event the controller can process: a completed path must be
/// well-formed and its length must fit the length type.
pub open spec fn event_ok(e: StepEvent) -> bool {
    match e {
        StepEvent::Completed { path } => path_wf(path@) && spec_path_len(path@) <= u64::MAX,
        _ => true,
    }
}

pub open spec fn initial_state() -> SearchState {
    SearchState {
        longest: None,
        recovery_in_progress: false,
        solver_level: 0,
        pending_unconstrain: None,
    }
}

/// The timeout-recovery protocol, as a function of the controller state
/// and what the engine reports.
pub open spec fn spec_timeout(
    s: SearchState,
    call_stack: Seq<Location>,
    backtrack: Option<BacktrackInfo>,
) -> (SearchState, Result<Directive, SearchError>) {
    if call_stack.len() == 0 {
        (s, Err(SearchError::UnrecoverableBacktrack))
    } else if s.recovery_in_progress {
        (s, Err(SearchError::DoubleTimeout))
    } else {
        let callsite = call_stack.last();
        match backtrack {
            None => (s, Err(SearchError::UnrecoverableBacktrack)),
            Some(b) => {
                let differs = match b.stack_top {
                    None => true,
                    Some(t) => !loc_same(t, callsite),
                };
                if !differs {
                    (s, Err(SearchError::UnrecoverableBacktrack))
                } else {
                    (
                        SearchState {
                            longest: s.longest,
                            recovery_in_progress: true,
                            solver_level: (s.solver_level + 1) as u64,
                            pending_unconstrain: Some(callsite),
                        },
                        Ok(Directive::Recover { unconstrain: callsite }),
                    )
                }
            },
        }
    }
}

/// One controller transition: the state after the event, and either the
/// next directive or the fatal error ending the run.
pub open spec fn spec_step(s: SearchState, e: StepEvent) -> (
    SearchState,
    Result<Directive, SearchError>,
) {
    match e {
        StepEvent::Completed { path } => {
            let len = spec_path_len(path@);
            let s2 = match s.longest {
                None => SearchState {
                    longest: Some((len as u64, path)),
                    recovery_in_progress: s.recovery_in_progress,
                    solver_level: s.solver_level,
                    pending_unconstrain: s.pending_unconstrain,
                },
                Some(pair) => if len > pair.0 {
                    SearchState {
                        longest: Some((len as u64, path)),
                        recovery_in_progress: s.recovery_in_progress,
                        solver_level: s.solver_level,
                        pending_unconstrain: s.pending_unconstrain,
                    }
                } else {
                    s
                },
            };
            (s2, Ok(Directive::Continue))
        },
        StepEvent::UnreachableInstruction => (s, Ok(Directive::Continue)),
        StepEvent::SolverTimeout { call_stack, backtrack } => spec_timeout(
            s,
            call_stack@,
            backtrack,
        ),
        StepEvent::SolverFailure { message } => (s, Err(SearchError::SolverFailure { message })),
        StepEvent::OtherFailure { message } => (s, Err(SearchError::OtherFailure { message })),
    }
}

/// Result of a whole run: fold the transition over the events; at
/// exhaustion, the longest snapshot, or the no-paths error when no path
/// ever completed.
pub open spec fn spec_run_from(s: SearchState, events: Seq<StepEvent>) -> Result<
    (u64, Vec<PathEntry>),
    SearchError,
>
    decreases events.len(),
{
    if events.len() == 0 {
        match s.longest {
            None => Err(SearchError::NoPathsFound),
            Some(pair) => Ok(pair),
        }
    } else {
        let step = spec_step(s, events[0]);
        match step.1 {
            Ok(_) => spec_run_from(step.0, events.drop_first()),
            Err(err) => Err(err),
        }
    }
}

pub open spec fn spec_run(events: Seq<StepEvent>) -> Result<(u64, Vec<PathEntry>), SearchError> {
    spec_run_from(initial_state(), events)
}

/// Clone a location, preserving the abstract value exactly.
fn clone_location(a: &Location) -> (r: Location)
    ensures
        r == *a,
{
    Location {
        module_name: a.module_name.clone(),
        function_name: a.function_name.clone(),
        basic_block_name: a.basic_block_name.clone(),
        position: a.position,
    }
}

impl SearchState {
    /// The state a run starts from.
    pub fn new() -> (s: SearchState)
        ensures
            s == initial_state(),
    {
        SearchState {
            longest: None,
            recovery_in_progress: false,
            solver_level: 0,
            pending_unconstrain: None,
        }
    }

    /// Process one engine step outcome.
    pub fn on_step(&mut self, e: StepEvent) -> (r: Result<Directive, SearchError>)
        requires
            event_ok(e),
            old(self).solver_level < u64::MAX,
        ensures
            (*final(self), r) == spec_step(*old(self), e),
    {
        match e {
            StepEvent::Completed { path } => {
                proof {
                    lemma_path_len_nonneg(path@);
                }
                let len = path_ir_length(&path);
                let replace = match &self.longest {
                    None => true,
                    Some(pair) => len > pair.0,
                };
                if replace {
                    self.longest = Some((len, path));
                }
                Ok(Directive::Continue)
            },
            StepEvent::UnreachableInstruction => Ok(Directive::Continue),
            StepEvent::SolverTimeout { call_stack, backtrack } => {
                if call_stack.len() == 0 {
                    return Err(SearchError::UnrecoverableBacktrack);
                }
                if self.recovery_in_progress {
                    return Err(SearchError::DoubleTimeout);
                }
                let mut cs = call_stack;
                match cs.pop() {
                    Some(callsite) => {
                        match backtrack {
                            None => Err(SearchError::UnrecoverableBacktrack),
                            Some(b) => {
                                let differs = match &b.stack_top {
                                    None => true,
                                    Some(t) => !loc_eq(t, &callsite),
                                };
                                if !differs {
                                    Err(SearchError::UnrecoverableBacktrack)
                                } else {
                                    self.recovery_in_progress = true;
                                    self.solver_level = self.solver_level + 1;
                                    self.pending_unconstrain = Some(clone_location(&callsite));
                                    Ok(Directive::Recover { unconstrain: callsite })
                                }
                            },
                        }
                    },
                    None => {
                        proof {
                            assert(false);
                        }
                        Err(SearchError::UnrecoverableBacktrack)
                    },
                }
            },
            StepEvent::SolverFailure { message } => Err(SearchError::SolverFailure { message }),
            StepEvent::OtherFailure { message } => Err(SearchError::OtherFailure { message }),
        }
    }

    /// Take the pending unconstrain request, consuming it: the request
    /// applies to its callee's next invocation only.
    pub fn take_pending_unconstrain(&mut self) -> (r: Option<Location>)
        ensures
            r == old(self).pending_unconstrain,
            final(self).pending_unconstrain is None,
            final(self).longest == old(self).longest,
            final(self).recovery_in_progress == old(self).recovery_in_progress,
            final(self).solver_level == old(self).solver_level,
    {
        let taken = match &self.pending_unconstrain {
            None => None,
            Some(l) => Some(clone_location(l)),
        };
        self.pending_unconstrain = None;
        taken
    }
}

/// Run a whole search over the recorded step outcomes of one exploration,
/// in order, the engine having reported exhaustion after the last: the
/// length of the longest completed path and its snapshot, or the error
/// that ended the run.
pub fn find_longest_path(mut events: Vec<StepEvent>) -> (r: Result<
    (u64, Vec<PathEntry>),
    SearchError,
>)
    requires
        forall|i: int| 0 <= i < events@.len() ==> event_ok(#[trigger] events@[i]),
    ensures
        r == spec_run(events@),
{
    let ghost all = events@;
    let mut st = SearchState::new();
    #[verifier::loop_isolation(false)]
    while events.len() > 0
        invariant
            forall|i: int| 0 <= i < events@.len() ==> event_ok(#[trigger] events@[i]),
            st.solver_level <= 1,
            st.solver_level == 1 ==> st.recovery_in_progress,
            spec_run(all) == spec_run_from(st, events@),
        decreases events@.len(),
    {
        let ghost st_before = st;
        let ghost evs_before = events@;
        let e = events.remove(0);
        let ghost e_snap = e;
        proof {
            assert(e_snap == evs_before[0]);
            assert(events@ =~= evs_before.drop_first());
        }
        match st.on_step(e) {
            Ok(_) => {
                proof {
                    assert(spec_run_from(st_before, evs_before) == spec_run_from(st, events@));
                }
            },
            Err(err) => {
                proof {
                    assert(spec_step(st_before, e_snap).1 == Err::<Directive, SearchError>(err));
                    assert(spec_run_from(st_before, evs_before) == Err::<
                        (u64, Vec<PathEntry>),
                        SearchError,
                    >(err));
                    assert(spec_run(all) == Err::<(u64, Vec<PathEntry>), SearchError>(err));
                }
                return Err(err);
            },
        }
    }
    match st.longest {
        None => Err(SearchError::NoPathsFound),
        Some(pair) => Ok(pair),
    }
}

/// Length of the path a completed step carries.
pub open spec fn completed_len(e: StepEvent) -> int {
    match e {
        StepEvent::Completed { path } => spec_path_len(path@),
        _ => -1,
    }
}

/// At index `i` the run completed exactly `path`, of length `len`, and
/// every path completed before it was strictly shorter.
pub open spec fn first_max_at(
    events: Seq<StepEvent>,
    len: int,
    path: Vec<PathEntry>,
    i: int,
) -> bool {
    &&& 0 <= i < events.len()
    &&& events[i] == (StepEvent::Completed { path })
    &&& forall|j: int| 0 <= j < i && (#[trigger] events[j]) is Completed ==> completed_len(
        events[j],
    ) < len
}

pub open spec fn first_max_witness(events: Seq<StepEvent>, len: int, path: Vec<PathEntry>)
    -> bool {
    exists|i: int| first_max_at(events, len, path, i)
}

proof fn lemma_run_from_first_max(s: SearchState, events: Seq<StepEvent>)
    requires
        forall|i: int| 0 <= i < events.len() ==> event_ok(#[trigger] events[i]),
        spec_run_from(s, events) is Ok,
    ensures
        ({
            let r = spec_run_from(s, events)->Ok_0;
            &&& forall|i: int|
                0 <= i < events.len() && (#[trigger] events[i]) is Completed ==> completed_len(
                    events[i],
                ) <= r.0
            &&& match s.longest {
                Some(pair) => pair.0 <= r.0,
                None => true,
            }
            &&& (first_max_witness(events, r.0 as int, r.1) && match s.longest {
                Some(pair) => pair.0 < r.0,
                None => true,
            }) || s.longest == Some(r)
        }),
    decreases events.len(),
{
    let r = spec_run_from(s, events)->Ok_0;
    if events.len() == 0 {
    } else {
        let e = events[0];
        let step = spec_step(s, e);
        let s2 = step.0;
        let rest = events.drop_first();
        assert(forall|i: int| 0 <= i < rest.len() ==> event_ok(#[trigger] rest[i])) by {
            assert(forall|i: int| 0 <= i < rest.len() ==> rest[i] == events[i + 1]);
        }
        lemma_run_from_first_max(s2, rest);
        let rr = spec_run_from(s2, rest)->Ok_0;
        assert(rr == r);
        assert(forall|i: int| 0 <= i < rest.len() ==> rest[i] == events[i + 1]);
        assert forall|i: int|
            0 <= i < events.len() && (#[trigger] events[i]) is Completed implies completed_len(
            events[i],
        ) <= r.0 by {
            if i > 0 {
                assert(events[i] == rest[i - 1]);
            } else {
                match e {
                    StepEvent::Completed { path } => {
                        lemma_path_len_nonneg(path@);
                        match s.longest {
                            None => {
                                assert(s2.longest == Some((spec_path_len(path@) as u64, path)));
                            },
                            Some(pair) => {
                                if spec_path_len(path@) > pair.0 {
                                    assert(s2.longest == Some((
                                        spec_path_len(path@) as u64,
                                        path,
                                    )));
                                }
                            },
                        }
                    },
                    _ => {},
                }
            }
        }
        match e {
            StepEvent::Completed { path } => {
                lemma_path_len_nonneg(path@);
                let lp = spec_path_len(path@);
                let adopted = match s.longest {
                    None => true,
                    Some(pair) => lp > pair.0,
                };
                if adopted {
                    assert(s2.longest == Some((lp as u64, path)));
                    if s2.longest == Some(rr) {
                        assert(first_max_at(events, r.0 as int, r.1, 0));
                    } else {
                        let i = choose|i: int| first_max_at(rest, r.0 as int, r.1, i);
                        assert(first_max_at(events, r.0 as int, r.1, i + 1)) by {
                            assert(events[i + 1] == rest[i]);
                            assert forall|j: int|
                                0 <= j < i + 1 && (#[trigger] events[j]) is Completed implies
                                completed_len(events[j]) < r.0 by {
                                if j > 0 {
                                    assert(events[j] == rest[j - 1]);
                                } else {
                                    assert(lp == s2.longest->Some_0.0);
                                }
                            }
                        }
                    }
                } else {
                    assert(s2 == s);
                    if s.longest == Some(rr) {
                    } else {
                        let i = choose|i: int| first_max_at(rest, r.0 as int, r.1, i);
                        assert(first_max_at(events, r.0 as int, r.1, i + 1)) by {
                            assert(events[i + 1] == rest[i]);
                            assert forall|j: int|
                                0 <= j < i + 1 && (#[trigger] events[j]) is Completed implies
                                completed_len(events[j]) < r.0 by {
                                if j > 0 {
                                    assert(events[j] == rest[j - 1]);
                                } else {
                                    assert(lp <= s.longest->Some_0.0);
                                }
                            }
                        }
                    }
                }
            },
            _ => {
                assert(s2.longest == s.longest);
                if s2.longest == Some(rr) {
                } else {
                    let i = choose|i: int| first_max_at(rest, r.0 as int, r.1, i);
                    assert(first_max_at(events, r.0 as int, r.1, i + 1)) by {
                        assert(events[i + 1] == rest[i]);
                        assert forall|j: int|
                            0 <= j < i + 1 && (#[trigger] events[j]) is Completed implies
                            completed_len(events[j]) < r.0 by {
                            if j > 0 {
                                assert(events[j] == rest[j - 1]);
                            }
                        }
                    }
                }
            },
        }
    }
}

/// A successful run reports the first path of maximal length: its
/// snapshot was completed by some step, no completed path is longer, and
/// every path completed before that step is strictly shorter.  Ties do
/// not replace the snapshot, despite the appearance of nondeterminism in
/// the engine's path order.
pub proof fn lemma_run_reports_first_maximum(events: Seq<StepEvent>)
    requires
        forall|i: int| 0 <= i < events.len() ==> event_ok(#[trigger] events[i]),
        spec_run(events) is Ok,
    ensures
        ({
            let r = spec_run(events)->Ok_0;
            &&& forall|i: int|
                0 <= i < events.len() && (#[trigger] events[i]) is Completed ==> completed_len(
                    events[i],
                ) <= r.0
            &&& first_max_witness(events, r.0 as int, r.1)
        }),
{
    lemma_run_from_first_max(initial_state(), events);
}

/// A timeout with an empty call stack has no safe backtrack target: the
/// run ends with the unrecoverable-backtrack error, never a retry.
pub proof fn lemma_timeout_empty_stack(
    s: SearchState,
    call_stack: Vec<Location>,
    backtrack: Option<BacktrackInfo>,
)
    requires
        call_stack@.len() == 0,
    ensures
        spec_step(s, StepEvent::SolverTimeout { call_stack, backtrack }) == (
            s,
            Err::<Directive, SearchError>(SearchError::UnrecoverableBacktrack),
        ),
{
}

/// A second timeout while a recovery is in progress is fatal, with the
/// distinct double-timeout error.
pub proof fn lemma_double_timeout(
    s: SearchState,
    call_stack: Vec<Location>,
    backtrack: Option<BacktrackInfo>,
)
    requires
        s.recovery_in_progress,
        call_stack@.len() > 0,
    ensures
        spec_step(s, StepEvent::SolverTimeout { call_stack, backtrack }) == (
            s,
            Err::<Directive, SearchError>(SearchError::DoubleTimeout),
        ),
{
}

/// The solver level stays in lock-step with the backtrack queue: a
/// transition raises the level by exactly one when and only when it
/// directs a re-enqueue, and leaves it unchanged otherwise.
pub proof fn lemma_solver_level_lockstep(s: SearchState, e: StepEvent)
    requires
        s.solver_level < u64::MAX,
    ensures
        ({
            let step = spec_step(s, e);
            &&& (step.0.solver_level == s.solver_level + 1 <==> step.1 matches Ok(
                Directive::Recover { .. },
            ))
            &&& (step.0.solver_level == s.solver_level <==> !(step.1 matches Ok(
                Directive::Recover { .. },
            )))
        }),
{
}

/// A completed path of the same length as the longest snapshot does not
/// replace it: the controller keeps the first path of maximal length.
pub proof fn lemma_tie_keeps_earlier(s: SearchState, path: Vec<PathEntry>)
    requires
        s.longest is Some,
        spec_path_len(path@) <= s.longest->Some_0.0,
    ensures
        spec_step(s, StepEvent::Completed { path }).0 == s,
{
}

/// A strictly longer completed path replaces the snapshot.
pub proof fn lemma_strictly_longer_replaces(s: SearchState, path: Vec<PathEntry>)
    requires
        match s.longest {
            None => true,
            Some(pair) => spec_path_len(path@) > pair.0,
        },
    ensures
        spec_step(s, StepEvent::Completed { path }).0.longest == Some((
            spec_path_len(path@) as u64,
            path,
        )),
{
}

} // verus!
