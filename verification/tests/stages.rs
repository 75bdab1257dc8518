//! Tests of the individual pipeline stages: the operand classifier, the
//! instruction resolver's addresses, and the core called on an already
//! parsed program.

use asm_rust::codegen::codegen;
use asm_rust::codegen::resolve_instructions;
use asm_rust::data::Located;
use asm_rust::data::SourceLoc;
use asm_rust::data::SourceSpan;
use asm_rust::descriptor::OperandDescriptor;
use asm_rust::parser::parse;
use asm_rust::parser::InstrItem;
use asm_rust::parser::OperandType;
use asm_rust::parser::ParsedProgram;
use asm_rust::preproc::preprocess;
use asm_rust::scanner::tokenize;
use asm_rust::strutil::parse_radix_exec;
use asm_rust::strutil::str_eq;
use asm_rust::strutil::u64_dec_string;

fn span1() -> SourceSpan {
    let loc = SourceLoc { line: 1, column: 1 };
    SourceSpan { start: loc, end: loc }
}

fn one_line() -> Vec<String> {
    vec![".skip -1".to_string()]
}

#[test]
fn describe_number_all_widths() {
    let descs = OperandDescriptor::describe_number(31, span1(), &one_line()).unwrap();
    assert_eq!(
        descs,
        vec![
            OperandDescriptor::Imm5,
            OperandDescriptor::Imm8,
            OperandDescriptor::Imm32
        ]
    );
}

#[test]
fn describe_number_negative_imm5_bound() {
    let descs = OperandDescriptor::describe_number(-16, span1(), &one_line()).unwrap();
    assert_eq!(
        descs,
        vec![
            OperandDescriptor::Imm5,
            OperandDescriptor::Imm8,
            OperandDescriptor::Imm32
        ]
    );
    let descs = OperandDescriptor::describe_number(-17, span1(), &one_line()).unwrap();
    assert_eq!(descs, vec![OperandDescriptor::Imm8, OperandDescriptor::Imm32]);
}

#[test]
fn describe_number_imm5_imm8_boundaries() {
    let descs = OperandDescriptor::describe_number(32, span1(), &one_line()).unwrap();
    assert_eq!(descs, vec![OperandDescriptor::Imm8, OperandDescriptor::Imm32]);
    let descs = OperandDescriptor::describe_number(255, span1(), &one_line()).unwrap();
    assert_eq!(descs, vec![OperandDescriptor::Imm8, OperandDescriptor::Imm32]);
    let descs = OperandDescriptor::describe_number(256, span1(), &one_line()).unwrap();
    assert_eq!(descs, vec![OperandDescriptor::Imm32]);
    let descs = OperandDescriptor::describe_number(-128, span1(), &one_line()).unwrap();
    assert_eq!(descs, vec![OperandDescriptor::Imm8, OperandDescriptor::Imm32]);
    let descs = OperandDescriptor::describe_number(-129, span1(), &one_line()).unwrap();
    assert_eq!(descs, vec![OperandDescriptor::Imm32]);
}

#[test]
fn describe_number_widest_only() {
    let descs = OperandDescriptor::describe_number(4294967295, span1(), &one_line()).unwrap();
    assert_eq!(descs, vec![OperandDescriptor::Imm32]);
    let descs = OperandDescriptor::describe_number(-2147483648, span1(), &one_line()).unwrap();
    assert_eq!(descs, vec![OperandDescriptor::Imm32]);
}

#[test]
fn describe_number_out_of_range_fails() {
    let err = OperandDescriptor::describe_number(4294967296, span1(), &one_line()).unwrap_err();
    assert_eq!(err.msg, "number is out of imm32 range");
    let err = OperandDescriptor::describe_number(-2147483649, span1(), &one_line()).unwrap_err();
    assert_eq!(err.msg, "number is out of imm32 range");
}

#[test]
fn resolver_addresses_chain() {
    let preproc_src = preprocess("mov r0, 5\njmpr 2\nret");
    let tok_src = tokenize(preproc_src).unwrap();
    let prog = parse(tok_src).unwrap();
    let resolved = resolve_instructions(&prog.instructions, &prog.orig_lines).unwrap();
    let addrs: Vec<usize> = resolved.iter().map(|r| r.addr).collect();
    let sizes: Vec<usize> = resolved.iter().map(|r| r.size).collect();
    assert_eq!(addrs, vec![0, 6, 8]);
    assert_eq!(sizes, vec![6, 2, 1]);
    for i in 0..resolved.len() - 1 {
        assert_eq!(resolved[i + 1].addr, resolved[i].addr + resolved[i].size);
    }
}

#[test]
fn skip_negative_is_semantic_error_before_any_bytes() {
    // The parser never builds a negative literal from text, but the
    // core's input contract allows one; `.skip -1` must fail with the
    // semantic error and emit nothing.
    let instr = Located::new(
        InstrItem {
            label: None,
            mnemonic: Some(".skip".to_string()),
            operands: vec![Located::new(OperandType::Number(-1), span1())],
        },
        span1(),
    );
    let prog = ParsedProgram {
        instructions: vec![instr],
        variables: Vec::new(),
        labels: Vec::new(),
        orig_lines: one_line(),
    };
    let err = codegen(&prog).unwrap_err();
    assert_eq!(err.msg, "expected a positive number");
}

#[test]
fn decimal_rendering() {
    assert_eq!(u64_dec_string(0), "0");
    assert_eq!(u64_dec_string(7), "7");
    assert_eq!(u64_dec_string(1234567890), "1234567890");
}

#[test]
fn radix_parsing() {
    assert_eq!(parse_radix_exec("ff", 16), Some(255));
    assert_eq!(parse_radix_exec("FF", 16), Some(255));
    assert_eq!(parse_radix_exec("255", 10), Some(255));
    assert_eq!(parse_radix_exec("", 10), None);
    assert_eq!(parse_radix_exec("12g", 10), None);
    assert_eq!(parse_radix_exec("9223372036854775807", 10), Some(i64::MAX));
    assert_eq!(parse_radix_exec("9223372036854775808", 10), None);
}

#[test]
fn string_equality_helper() {
    assert!(str_eq("mov", "mov"));
    assert!(!str_eq("mov", "mvo"));
    assert!(!str_eq("mov", "move"));
}

#[test]
fn string_literal_escapes() {
    let preproc_src = preprocess(".strs \"a\\\"b\"");
    let tok_src = tokenize(preproc_src).unwrap();
    let prog = parse(tok_src).unwrap();
    let binary = codegen(&prog).unwrap();
    assert_eq!(binary, vec![b'a', b'"', b'b']);
}

#[test]
fn incomplete_string_literal_rejected() {
    let preproc_src = preprocess(".strs \"abc\\");
    let err = tokenize(preproc_src).unwrap_err();
    assert_eq!(err.msg, "incomplete string literal");
}

#[test]
fn unexpected_character_rejected() {
    let preproc_src = preprocess("mov r0, #5");
    let err = tokenize(preproc_src).unwrap_err();
    assert_eq!(err.msg, "unexpected character: #");
}

#[test]
fn invalid_numbers_rejected() {
    let preproc_src = preprocess("mov r0, 0xZZ");
    let err = tokenize(preproc_src).unwrap_err();
    assert_eq!(err.msg, "invalid hexadecimal number");
    let preproc_src = preprocess("mov r0, 12q");
    let err = tokenize(preproc_src).unwrap_err();
    assert_eq!(err.msg, "invalid decimal number");
}

#[test]
fn preprocessor_keeps_positions() {
    let src = preprocess("\n   mov r0, 5\n; note\nret");
    assert_eq!(src.orig_lines.len(), 4);
    assert_eq!(src.lines.len(), 2);
    assert_eq!(src.lines[0].content, "mov r0, 5");
    assert_eq!(src.lines[0].orig_line_num, 2);
    assert_eq!(src.lines[0].start_col, 3);
    assert_eq!(src.lines[1].content, "ret");
    assert_eq!(src.lines[1].orig_line_num, 4);
    assert_eq!(src.lines[1].start_col, 0);
}
