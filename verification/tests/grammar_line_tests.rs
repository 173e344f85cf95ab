use longest_path::grammar::{classify, LineClass};
use longest_path::path::quote_bb_name;

fn s(x: &str) -> String {
    x.to_string()
}

#[test]
fn classify_blank_lines() {
    assert_eq!(classify(""), LineClass::Blank);
    assert_eq!(classify("   \t "), LineClass::Blank);
}

#[test]
fn classify_plain_instruction() {
    assert_eq!(
        classify("1000: push {r4, lr}"),
        LineClass::Instruction { literal_data: false, callee: None }
    );
    assert_eq!(
        classify("  2f04:\tadd r0, r1"),
        LineClass::Instruction { literal_data: false, callee: None }
    );
}

#[test]
fn classify_literal_data() {
    assert_eq!(
        classify("1004: .word 0x20001000"),
        LineClass::Instruction { literal_data: true, callee: None }
    );
}

#[test]
fn classify_call_instruction() {
    assert_eq!(
        classify("1000: bl OUTLINED_FUNCTION_3"),
        LineClass::Instruction { literal_data: false, callee: Some(s("OUTLINED_FUNCTION_3")) }
    );
    assert_eq!(
        classify("1008: bl memcpy extra"),
        LineClass::Instruction { literal_data: false, callee: Some(s("memcpy")) }
    );
}

#[test]
fn classify_label() {
    assert_eq!(classify("OUTLINED_FUNCTION_0:"), LineClass::Label { name: s("OUTLINED_FUNCTION_0") });
    assert_eq!(classify("_start:"), LineClass::Label { name: s("_start") });
}

#[test]
fn classify_marker() {
    assert_eq!(classify("src.c:10"), LineClass::Marker { file: s("src.c"), line: 10 });
    assert_eq!(
        classify("kernel/sched.rs:4711"),
        LineClass::Marker { file: s("kernel/sched.rs"), line: 4711 }
    );
}

#[test]
fn classify_malformed_marker_extra_colon() {
    assert_eq!(classify("src.c:10:20"), LineClass::MalformedMarker);
}

#[test]
fn classify_malformed_marker_no_number() {
    assert_eq!(classify("src.c:ten"), LineClass::MalformedMarker);
}

#[test]
fn classify_trailing_colon_is_label() {
    // a lone trailing colon reads as a label, not a marker
    assert_eq!(classify("src.c:"), LineClass::Label { name: s("src.c") });
}

#[test]
fn classify_malformed_marker_huge_number() {
    // does not fit an unsigned 64-bit number
    assert_eq!(classify("src.c:99999999999999999999"), LineClass::MalformedMarker);
}

#[test]
fn classify_other_lines() {
    assert_eq!(classify("\t.fnstart"), LineClass::Other);
    assert_eq!(classify(".section .text"), LineClass::Other);
    assert_eq!(classify("@ comment: something"), LineClass::Other);
    assert_eq!(classify("plainword"), LineClass::Other);
}

#[test]
fn quote_bb_name_inserts_quotes() {
    assert_eq!(quote_bb_name(&s("%bb1")), s("%\"bb1\""));
    assert_eq!(quote_bb_name(&s("%_foo.exit")), s("%\"_foo.exit\""));
}

#[test]
fn quote_bb_name_single_char() {
    assert_eq!(quote_bb_name(&s("x")), s("x\"\""));
}
