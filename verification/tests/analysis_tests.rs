use longest_path::analysis::analyze;
use longest_path::disasm::build_model;
use longest_path::path::{DebugLoc, IrInstr, PathEntry, Position};
use longest_path::search::{SearchError, StepEvent};

fn s(x: &str) -> String {
    x.to_string()
}

fn lines(xs: &[&str]) -> Vec<String> {
    xs.iter().map(|x| x.to_string()).collect()
}

fn tagged_entry(block: &str, file: &str, line: u64) -> PathEntry {
    PathEntry {
        module_name: s("m"),
        function_name: s("f"),
        block_name: s(block),
        instrs: vec![IrInstr {
            text: format!("%{}", block),
            debug: Some(DebugLoc { file: s(file), line }),
            is_call: false,
        }],
        terminator: s("br"),
        position: Position::Instr(0),
    }
}

#[test]
fn analyze_reports_longest_path_with_its_count() {
    let model = build_model(lines(&[
        "src.c:10",
        "1000: push {r4, lr}",
        "1004: mov r0, r1",
        "src.c:20",
        "1008: pop {r4, pc}",
    ]))
    .expect("well-formed listing");
    let events = vec![
        StepEvent::Completed { path: vec![tagged_entry("b0", "src.c", 10)] },
        StepEvent::Completed {
            path: vec![tagged_entry("b0", "src.c", 10), tagged_entry("b1", "src.c", 20)],
        },
    ];
    let report = analyze(events, &model).expect("a path completed");
    assert_eq!(report.ir_length, 2);
    assert_eq!(report.snapshot.len(), 2);
    // the two anchors hold 2 and 1 machine instructions
    assert_eq!(report.correlation.total, 3);
    assert_eq!(report.correlation.machine_trace.len(), 2);
}

#[test]
fn analyze_propagates_search_errors() {
    let model = build_model(Vec::new()).expect("empty listing");
    let events = vec![StepEvent::SolverFailure { message: s("gave up") }];
    assert_eq!(
        analyze(events, &model),
        Err(SearchError::SolverFailure { message: s("gave up") })
    );
}
