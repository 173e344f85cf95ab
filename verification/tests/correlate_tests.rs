use longest_path::correlate::{count_instructions, TraceItem};
use longest_path::disasm::{DisassemblyModel, LookupInfo, SourceFileEntry};
use longest_path::path::{DebugLoc, IrInstr, PathEntry, Position};

fn s(x: &str) -> String {
    x.to_string()
}

fn instr(text: &str, file: &str, line: u64, is_call: bool) -> IrInstr {
    IrInstr {
        text: s(text),
        debug: Some(DebugLoc { file: s(file), line }),
        is_call,
    }
}

fn bare_instr(text: &str) -> IrInstr {
    IrInstr { text: s(text), debug: None, is_call: false }
}

fn entry(block: &str, instrs: Vec<IrInstr>, position: Position) -> PathEntry {
    PathEntry {
        module_name: s("m"),
        function_name: s("f"),
        block_name: s(block),
        instrs,
        terminator: s("term"),
        position,
    }
}

fn info(source_line: u64, dli: usize, count: u64, text: &str) -> LookupInfo {
    LookupInfo {
        source_line,
        disassembly_line_index: dli,
        instruction_count: count,
        instruction_text: vec![s(text)],
    }
}

fn model_of(file: &str, infos: Vec<LookupInfo>) -> DisassemblyModel {
    DisassemblyModel {
        lines: Vec::new(),
        source_index: vec![SourceFileEntry { file: s(file), infos }],
    }
}

#[test]
fn counts_single_match() {
    let model = model_of("a.c", vec![info(10, 3, 7, "1000: nop")]);
    let path = vec![entry("b0", vec![instr("%1 = add", "a.c", 10, false)], Position::Instr(0))];
    let r = count_instructions(&path, &model);
    assert_eq!(r.total, 7);
    assert_eq!(r.machine_trace.len(), 1);
    assert_eq!(r.machine_trace[0].disassembly_line_index, 3);
    assert_eq!(r.machine_trace[0].instruction_count, 7);
    assert_eq!(
        r.annotated,
        vec![
            TraceItem::BlockHeader {
                module_name: s("m"),
                function_name: s("f"),
                block_name: s("b0"),
            },
            TraceItem::Matched { text: s("%1 = add"), disassembly_line_index: 3, counted: true },
            TraceItem::TerminatorText { text: s("term") },
        ]
    );
}

#[test]
fn dedup_same_anchor_counted_once() {
    // two instructions resolve to the same anchor: its count enters the
    // total exactly once
    let model = model_of("a.c", vec![info(10, 3, 7, "1000: nop")]);
    let path = vec![entry(
        "b0",
        vec![
            instr("%1 = add", "a.c", 10, false),
            instr("%2 = mul", "a.c", 12, false), // 12 - 10 <= 5: same anchor
        ],
        Position::Instr(0),
    )];
    let r = count_instructions(&path, &model);
    assert_eq!(r.total, 7);
    assert_eq!(r.machine_trace.len(), 1);
    assert_eq!(
        r.annotated[1],
        TraceItem::Matched { text: s("%1 = add"), disassembly_line_index: 3, counted: true }
    );
    assert_eq!(
        r.annotated[2],
        TraceItem::Matched { text: s("%2 = mul"), disassembly_line_index: 3, counted: false }
    );
}

#[test]
fn correlate_is_repeatable() {
    let model = model_of(
        "a.c",
        vec![info(10, 3, 7, "1000: nop"), info(20, 9, 2, "1040: nop")],
    );
    let path = vec![entry(
        "b0",
        vec![
            instr("%1 = add", "a.c", 21, false),
            instr("%2 = mul", "a.c", 9, false),
            bare_instr("%3 = br"),
        ],
        Position::Instr(0),
    )];
    let r1 = count_instructions(&path, &model);
    let r2 = count_instructions(&path, &model);
    assert_eq!(r1, r2);
}

#[test]
fn machine_trace_ordered_by_listing_line() {
    let model = model_of(
        "a.c",
        vec![info(20, 9, 2, "1040: nop"), info(10, 3, 7, "1000: nop")],
    );
    let path = vec![entry(
        "b0",
        vec![instr("%1", "a.c", 20, false), instr("%2", "a.c", 10, false)],
        Position::Instr(0),
    )];
    let r = count_instructions(&path, &model);
    assert_eq!(r.total, 9);
    assert_eq!(r.machine_trace.len(), 2);
    assert_eq!(r.machine_trace[0].disassembly_line_index, 3);
    assert_eq!(r.machine_trace[1].disassembly_line_index, 9);
}

#[test]
fn window_three_ahead_never_selected() {
    // candidate source line == instruction line + 3: beyond the forward
    // threshold of 2
    let model = model_of("a.c", vec![info(13, 3, 7, "1000: nop")]);
    let path = vec![entry("b0", vec![instr("%1", "a.c", 10, false)], Position::Instr(0))];
    let r = count_instructions(&path, &model);
    assert_eq!(r.total, 0);
    assert_eq!(r.annotated[1], TraceItem::ThresholdExceeded { text: s("%1") });
}

#[test]
fn window_two_ahead_selected() {
    let model = model_of("a.c", vec![info(12, 3, 7, "1000: nop")]);
    let path = vec![entry("b0", vec![instr("%1", "a.c", 10, false)], Position::Instr(0))];
    let r = count_instructions(&path, &model);
    assert_eq!(r.total, 7);
}

#[test]
fn window_five_behind_selected() {
    // candidate source line == instruction line - 5, no closer candidate
    let model = model_of("a.c", vec![info(5, 3, 7, "1000: nop")]);
    let path = vec![entry("b0", vec![instr("%1", "a.c", 10, false)], Position::Instr(0))];
    let r = count_instructions(&path, &model);
    assert_eq!(r.total, 7);
    assert_eq!(
        r.annotated[1],
        TraceItem::Matched { text: s("%1"), disassembly_line_index: 3, counted: true }
    );
}

#[test]
fn window_six_behind_never_selected() {
    let model = model_of("a.c", vec![info(4, 3, 7, "1000: nop")]);
    let path = vec![entry("b0", vec![instr("%1", "a.c", 10, false)], Position::Instr(0))];
    let r = count_instructions(&path, &model);
    assert_eq!(r.total, 0);
    assert_eq!(r.annotated[1], TraceItem::ThresholdExceeded { text: s("%1") });
}

#[test]
fn tie_broken_by_smaller_listing_line() {
    // both candidates at distance 2: the one earlier in the listing wins
    let model = model_of(
        "a.c",
        vec![info(12, 9, 9, "1040: nop"), info(8, 3, 1, "1000: nop")],
    );
    let path = vec![entry("b0", vec![instr("%1", "a.c", 10, false)], Position::Instr(0))];
    let r = count_instructions(&path, &model);
    assert_eq!(r.total, 1);
    assert_eq!(
        r.annotated[1],
        TraceItem::Matched { text: s("%1"), disassembly_line_index: 3, counted: true }
    );
}

#[test]
fn closer_candidate_beats_farther() {
    let model = model_of(
        "a.c",
        vec![info(5, 3, 7, "1000: nop"), info(9, 9, 2, "1040: nop")],
    );
    let path = vec![entry("b0", vec![instr("%1", "a.c", 10, false)], Position::Instr(0))];
    let r = count_instructions(&path, &model);
    // distance 1 (line 9) beats distance 5 (line 5)
    assert_eq!(r.total, 2);
}

#[test]
fn missing_file_is_lookup_failure() {
    let model = model_of("a.c", vec![info(10, 3, 7, "1000: nop")]);
    let path = vec![entry("b0", vec![instr("%1", "other.c", 10, false)], Position::Instr(0))];
    let r = count_instructions(&path, &model);
    assert_eq!(r.total, 0);
    assert_eq!(r.annotated[1], TraceItem::LookupFailed { text: s("%1") });
}

#[test]
fn missing_debug_location_excluded() {
    let model = model_of("a.c", vec![info(10, 3, 7, "1000: nop")]);
    let path = vec![entry("b0", vec![bare_instr("%1")], Position::Instr(0))];
    let r = count_instructions(&path, &model);
    assert_eq!(r.total, 0);
    assert_eq!(r.annotated[1], TraceItem::NoDebugLocation { text: s("%1") });
}

#[test]
fn line_zero_treated_as_no_debug_location() {
    let model = model_of("a.c", vec![info(0, 3, 7, "1000: nop")]);
    let path = vec![entry("b0", vec![instr("%1", "a.c", 0, false)], Position::Instr(0))];
    let r = count_instructions(&path, &model);
    assert_eq!(r.total, 0);
    assert_eq!(r.annotated[1], TraceItem::NoDebugLocation { text: s("%1") });
}

#[test]
fn reentry_call_stops_block_without_terminator() {
    // The path re-enters block b0 at instruction 2, so (b0, 1) is a
    // re-entry pair: the walk of the first entry stops right after the
    // call at index 1 and appends no terminator for it.
    let mk_instrs = || {
        vec![bare_instr("%0"), IrInstr { text: s("%1 = call"), debug: None, is_call: true },
            bare_instr("%2")]
    };
    let path = vec![
        entry("b0", mk_instrs(), Position::Instr(0)),
        entry("b0", mk_instrs(), Position::Instr(2)),
    ];
    let model = DisassemblyModel { lines: Vec::new(), source_index: Vec::new() };
    let r = count_instructions(&path, &model);
    assert_eq!(
        r.annotated,
        vec![
            TraceItem::BlockHeader {
                module_name: s("m"),
                function_name: s("f"),
                block_name: s("b0"),
            },
            TraceItem::NoDebugLocation { text: s("%0") },
            TraceItem::NoDebugLocation { text: s("%1 = call") },
            // no terminator here: the walk stopped at the call
            TraceItem::BlockHeader {
                module_name: s("m"),
                function_name: s("f"),
                block_name: s("b0"),
            },
            TraceItem::NoDebugLocation { text: s("%2") },
            TraceItem::TerminatorText { text: s("term") },
        ]
    );
}

#[test]
fn terminator_entry_appends_text_only() {
    let path = vec![entry("b0", vec![bare_instr("%0")], Position::Terminator)];
    let model = DisassemblyModel { lines: Vec::new(), source_index: Vec::new() };
    let r = count_instructions(&path, &model);
    assert_eq!(r.total, 0);
    assert_eq!(
        r.annotated,
        vec![
            TraceItem::BlockHeader {
                module_name: s("m"),
                function_name: s("f"),
                block_name: s("b0"),
            },
            TraceItem::TerminatorText { text: s("term") },
        ]
    );
}

#[test]
fn empty_path_correlates_to_nothing() {
    let model = model_of("a.c", vec![info(10, 3, 7, "1000: nop")]);
    let path: Vec<PathEntry> = Vec::new();
    let r = count_instructions(&path, &model);
    assert_eq!(r.total, 0);
    assert!(r.annotated.is_empty());
    assert!(r.machine_trace.is_empty());
}
