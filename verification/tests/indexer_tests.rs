use longest_path::disasm::{build_model, DisassemblyError};
use longest_path::outlined::build_outlined_table;

fn s(x: &str) -> String {
    x.to_string()
}

fn lines(xs: &[&str]) -> Vec<String> {
    xs.iter().map(|x| x.to_string()).collect()
}

#[test]
fn outlined_table_counts_block() {
    let ls = lines(&[
        "OUTLINED_FUNCTION_3:",
        "alias_label:",
        "2000: mov r0, r1",
        "2004: mov r2, r3",
        "2008: .word 0x1234",
        "200c: add r0, r2",
        "2010: bx lr",
        "",
        "1000: unrelated",
    ]);
    let t = build_outlined_table(&ls);
    let k = t.lookup_idx(&s("OUTLINED_FUNCTION_3")).expect("canonical name registered");
    assert_eq!(t.entries[k].instruction_count, 4); // literal data excluded
    assert_eq!(t.entries[k].text.len(), 4);
    assert_eq!(t.entries[k].text[0], s("2000: mov r0, r1"));
}

#[test]
fn outlined_table_alias_resolves_identically() {
    let ls = lines(&[
        "OUTLINED_FUNCTION_3:",
        "alias_label:",
        "2000: mov r0, r1",
        "",
    ]);
    let t = build_outlined_table(&ls);
    let a = t.lookup_idx(&s("OUTLINED_FUNCTION_3")).expect("canonical");
    let b = t.lookup_idx(&s("alias_label")).expect("alias");
    assert_eq!(t.entries[a].instruction_count, t.entries[b].instruction_count);
    assert_eq!(t.entries[a].text, t.entries[b].text);
}

#[test]
fn outlined_table_first_registration_wins() {
    let ls = lines(&[
        "OUTLINED_FUNCTION_7:",
        "first_alias:",
        "2000: mov r0, r1",
        "2004: mov r2, r3",
        "",
        "OUTLINED_FUNCTION_7:",
        "second_alias:",
        "3000: nop",
        "",
    ]);
    let t = build_outlined_table(&ls);
    let k = t.lookup_idx(&s("OUTLINED_FUNCTION_7")).expect("registered");
    // the first block's count stays
    assert_eq!(t.entries[k].instruction_count, 2);
}

#[test]
fn outlined_table_missing_name() {
    let ls = lines(&["1000: mov r0, r1"]);
    let t = build_outlined_table(&ls);
    assert!(t.lookup_idx(&s("OUTLINED_FUNCTION_0")).is_none());
}

#[test]
fn model_outlined_expansion_scenario() {
    // An instruction at address 1000 tagged src.c:10 calls
    // OUTLINED_FUNCTION_3, whose block holds 4 instructions: the record
    // for line 10 counts 1 + 4 == 5.
    let ls = lines(&[
        "OUTLINED_FUNCTION_3:",
        "out_alias:",
        "2000: mov r0, r1",
        "2004: mov r2, r3",
        "2008: add r0, r2",
        "200c: bx lr",
        "",
        "src.c:10",
        "1000: bl OUTLINED_FUNCTION_3",
    ]);
    let model = build_model(ls).expect("well-formed listing");
    let entry = model
        .source_index
        .iter()
        .find(|e| e.file == s("src.c"))
        .expect("src.c indexed");
    assert_eq!(entry.infos.len(), 1);
    assert_eq!(entry.infos[0].source_line, 10);
    assert_eq!(entry.infos[0].instruction_count, 5);
    assert_eq!(entry.infos[0].disassembly_line_index, 7);
    // the outlined text is spliced in after the call instruction
    assert_eq!(entry.infos[0].instruction_text.len(), 5);
    assert_eq!(entry.infos[0].instruction_text[0], s("1000: bl OUTLINED_FUNCTION_3"));
    assert_eq!(entry.infos[0].instruction_text[1], s("2000: mov r0, r1"));
}

#[test]
fn model_run_counts_and_stops_at_non_instruction() {
    let ls = lines(&[
        "main.c:3",
        "1000: push {r4, lr}",
        "1004: .word 0x1",
        "1008: pop {r4, pc}",
        "some_label:",
        "100c: nop",
    ]);
    let model = build_model(ls).expect("well-formed listing");
    assert_eq!(model.source_index.len(), 1);
    let entry = &model.source_index[0];
    assert_eq!(entry.file, s("main.c"));
    // two counted instructions: the literal-data line is excluded and the
    // run ends at the label, so the trailing instruction is not counted
    assert_eq!(entry.infos[0].instruction_count, 2);
}

#[test]
fn model_groups_records_by_file() {
    let ls = lines(&[
        "a.c:1",
        "1000: nop",
        "b.c:2",
        "1004: nop",
        "a.c:9",
        "1008: nop",
    ]);
    let model = build_model(ls).expect("well-formed listing");
    assert_eq!(model.source_index.len(), 2);
    assert_eq!(model.source_index[0].file, s("a.c"));
    assert_eq!(model.source_index[0].infos.len(), 2);
    assert_eq!(model.source_index[0].infos[0].source_line, 1);
    assert_eq!(model.source_index[0].infos[1].source_line, 9);
    assert_eq!(model.source_index[1].file, s("b.c"));
    assert_eq!(model.source_index[1].infos.len(), 1);
}

#[test]
fn model_malformed_marker_is_fatal() {
    let ls = lines(&["a.c:1", "1000: nop", "bad.c:1:2"]);
    match build_model(ls) {
        Err(DisassemblyError::MalformedLocationMarker { line_index }) => {
            assert_eq!(line_index, 2);
        },
        Ok(_) => panic!("malformed marker must be fatal"),
    }
}

#[test]
fn model_marker_with_empty_run() {
    // a marker followed by no instruction still yields a record, with
    // count zero
    let ls = lines(&["a.c:5", "some_label:", "1000: nop"]);
    let model = build_model(ls).expect("well-formed listing");
    assert_eq!(model.source_index.len(), 1);
    assert_eq!(model.source_index[0].infos[0].instruction_count, 0);
}

#[test]
fn outlined_header_at_end_of_listing() {
    let ls = lines(&["OUTLINED_FUNCTION_9:"]);
    let t = build_outlined_table(&ls);
    let k = t.lookup_idx(&s("OUTLINED_FUNCTION_9")).expect("registered");
    assert_eq!(t.entries[k].instruction_count, 0);
    assert!(t.entries[k].text.is_empty());
}

#[test]
fn model_empty_listing() {
    let model = build_model(Vec::new()).expect("empty listing is fine");
    assert_eq!(model.source_index.len(), 0);
    assert_eq!(model.lines.len(), 0);
}
