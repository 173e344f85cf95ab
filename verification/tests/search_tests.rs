use longest_path::path::{path_ir_length, path_ir_length_checked, IrInstr, PathEntry, Position};
use longest_path::search::{
    find_longest_path, BacktrackInfo, Directive, SearchError, SearchState, StepEvent,
};
use longest_path::path::Location;

fn s(x: &str) -> String {
    x.to_string()
}

fn block_instrs(n: usize) -> Vec<IrInstr> {
    (0..n).map(|i| IrInstr { text: format!("%{}", i), debug: None, is_call: false }).collect()
}

fn entry(block: &str, n: usize, position: Position) -> PathEntry {
    PathEntry {
        module_name: s("m"),
        function_name: s("f"),
        block_name: s(block),
        instrs: block_instrs(n),
        terminator: s("term"),
        position,
    }
}

fn loc(block: &str) -> Location {
    Location {
        module_name: s("m"),
        function_name: s("f"),
        basic_block_name: s(block),
        position: Position::Instr(0),
    }
}

fn timeout(stack_blocks: &[&str], backtrack_top: Option<Option<&str>>) -> StepEvent {
    StepEvent::SolverTimeout {
        call_stack: stack_blocks.iter().map(|b| loc(b)).collect(),
        backtrack: backtrack_top.map(|t| BacktrackInfo { stack_top: t.map(loc) }),
    }
}

#[test]
fn path_length_is_sum_of_remaining() {
    // (3 - 1) remaining in the first block, 0 for a terminator entry,
    // (2 - 0) in the last
    let p = vec![
        entry("b0", 3, Position::Instr(1)),
        entry("b1", 4, Position::Terminator),
        entry("b2", 2, Position::Instr(0)),
    ];
    assert_eq!(path_ir_length(&p), 4);
    assert_eq!(path_ir_length_checked(&p), Some(4));
}

#[test]
fn empty_path_has_length_zero() {
    let p: Vec<PathEntry> = Vec::new();
    assert_eq!(path_ir_length(&p), 0);
}

#[test]
fn resume_at_block_end_has_zero_remaining() {
    let p = vec![entry("b0", 3, Position::Instr(3))];
    assert_eq!(path_ir_length(&p), 0);
}

#[test]
fn longest_path_of_no_events_is_no_paths_found() {
    assert_eq!(find_longest_path(Vec::new()), Err(SearchError::NoPathsFound));
}

#[test]
fn unreachable_steps_are_skipped() {
    let events = vec![StepEvent::UnreachableInstruction, StepEvent::UnreachableInstruction];
    assert_eq!(find_longest_path(events), Err(SearchError::NoPathsFound));
}

#[test]
fn longest_completed_path_wins() {
    let events = vec![
        StepEvent::Completed { path: vec![entry("short", 2, Position::Instr(0))] },
        StepEvent::Completed { path: vec![entry("long", 5, Position::Instr(0))] },
        StepEvent::Completed { path: vec![entry("mid", 3, Position::Instr(0))] },
    ];
    let (len, snapshot) = find_longest_path(events).expect("a path completed");
    assert_eq!(len, 5);
    assert_eq!(snapshot[0].block_name, s("long"));
}

#[test]
fn equal_length_keeps_the_earlier_path() {
    let events = vec![
        StepEvent::Completed { path: vec![entry("first", 3, Position::Instr(0))] },
        StepEvent::Completed { path: vec![entry("second", 3, Position::Instr(0))] },
    ];
    let (len, snapshot) = find_longest_path(events).expect("a path completed");
    assert_eq!(len, 3);
    assert_eq!(snapshot[0].block_name, s("first"));
}

#[test]
fn solver_failure_is_fatal() {
    let events = vec![
        StepEvent::Completed { path: vec![entry("b", 3, Position::Instr(0))] },
        StepEvent::SolverFailure { message: s("unsat core lost") },
    ];
    assert_eq!(
        find_longest_path(events),
        Err(SearchError::SolverFailure { message: s("unsat core lost") })
    );
}

#[test]
fn other_failure_is_fatal() {
    let events = vec![StepEvent::OtherFailure { message: s("engine crash") }];
    assert_eq!(
        find_longest_path(events),
        Err(SearchError::OtherFailure { message: s("engine crash") })
    );
}

#[test]
fn timeout_with_empty_call_stack_is_unrecoverable() {
    // no retry: the unrecoverable-backtrack error ends the run
    let events = vec![timeout(&[], Some(None))];
    assert_eq!(find_longest_path(events), Err(SearchError::UnrecoverableBacktrack));
}

#[test]
fn timeout_without_backtrack_point_is_unrecoverable() {
    let events = vec![timeout(&["callsite"], None)];
    assert_eq!(find_longest_path(events), Err(SearchError::UnrecoverableBacktrack));
}

#[test]
fn timeout_with_backtrack_inside_frame_is_unrecoverable() {
    // the most recent backtrack point's stack top equals the timed-out
    // call site: no safe target
    let events = vec![timeout(&["callsite"], Some(Some("callsite")))];
    assert_eq!(find_longest_path(events), Err(SearchError::UnrecoverableBacktrack));
}

#[test]
fn timeout_recovers_once_and_search_continues() {
    let events = vec![
        timeout(&["callsite"], Some(Some("elsewhere"))),
        StepEvent::Completed { path: vec![entry("b", 4, Position::Instr(0))] },
    ];
    let (len, _) = find_longest_path(events).expect("recovery then completion");
    assert_eq!(len, 4);
}

#[test]
fn two_timeouts_in_one_run_are_a_double_timeout() {
    let events = vec![
        timeout(&["callsite"], Some(Some("elsewhere"))),
        timeout(&["callsite"], Some(Some("elsewhere"))),
    ];
    assert_eq!(find_longest_path(events), Err(SearchError::DoubleTimeout));
}

#[test]
fn recovery_directive_and_solver_level() {
    let mut st = SearchState::new();
    assert_eq!(st.solver_level, 0);
    let r = st.on_step(timeout(&["callsite"], Some(Some("elsewhere"))));
    match r {
        Ok(Directive::Recover { unconstrain }) => {
            assert_eq!(unconstrain.basic_block_name, s("callsite"));
        },
        other => panic!("expected a recovery directive, got {:?}", other),
    }
    // one re-enqueue, one solver-level increment, recovery marked
    assert_eq!(st.solver_level, 1);
    assert!(st.recovery_in_progress);
}

#[test]
fn unconstrain_request_is_consumed_once() {
    let mut st = SearchState::new();
    let _ = st.on_step(timeout(&["callsite"], Some(Some("elsewhere"))));
    let first = st.take_pending_unconstrain();
    assert_eq!(first.map(|l| l.basic_block_name), Some(s("callsite")));
    assert_eq!(st.take_pending_unconstrain(), None);
}

#[test]
fn overlong_path_length_reports_none() {
    // one entry resuming at index 0 of a block is fine; length checking
    // never overflows on ordinary paths
    let p = vec![entry("b", 7, Position::Instr(0))];
    assert_eq!(path_ir_length_checked(&p), Some(7));
}
