//! End-to-end assembly tests: source text through preprocessing,
//! lexing, parsing and code generation to exact bytes.

use asm_rust::codegen::codegen;
use asm_rust::data::AsmError;
use asm_rust::parser::parse;
use asm_rust::preproc::preprocess;
use asm_rust::scanner::tokenize;

fn assemble(src_text: &str) -> Result<Vec<u8>, AsmError> {
    let preproc_src = preprocess(src_text);
    let tok_src = tokenize(preproc_src)?;
    let parsed_prog = parse(tok_src)?;
    codegen(&parsed_prog)
}

#[test]
fn mov_imm_then_ret_round_trip() {
    // Opcode 0x21, the register code of r0, the 4-byte little-endian
    // immediate 5, then opcode 0x7F for `ret`.
    let binary = assemble("mov r0, 5\nret").unwrap();
    assert_eq!(binary, vec![0x21, 0x00, 0x05, 0x00, 0x00, 0x00, 0x7F]);
}

#[test]
fn label_resolves_to_own_address() {
    let binary = assemble("loop: jmpa loop").unwrap();
    assert_eq!(binary, vec![0x61, 0x00, 0x00, 0x00, 0x00]);
}

#[test]
fn origin_pads_with_zeros() {
    let binary = assemble("jmpr 0\n.origin 0x10\nret").unwrap();
    let mut expected = vec![0x60, 0x00];
    expected.extend(std::iter::repeat(0u8).take(14));
    expected.push(0x7F);
    assert_eq!(binary.len(), 17);
    assert_eq!(binary, expected);
}

#[test]
fn unresolved_label_reports_reference_error() {
    let err = assemble("jmpa missing").unwrap_err();
    assert_eq!(err.msg, "unresolved label 'missing'");
}

#[test]
fn origin_backwards_is_semantic_error() {
    let err = assemble("mov r0, 5\nret\n.origin 2").unwrap_err();
    assert_eq!(err.msg, "address must be greater than or equal to 7");
}

#[test]
fn mov_reg_reg() {
    let binary = assemble("mov r3, r7").unwrap();
    assert_eq!(binary, vec![0x20, 0x03, 0x07]);
}

#[test]
fn no_opcode_emitted_for_bare_label() {
    let binary = assemble("here:\nhalt").unwrap();
    assert_eq!(binary, vec![0xA1]);
}

#[test]
fn shr_small_immediate_uses_imm5() {
    let binary = assemble("shr r1, 7").unwrap();
    assert_eq!(binary, vec![0x53, 0x01, 0x07]);
}

#[test]
fn str_with_register_offset() {
    let binary = assemble("str [r1+r2], r3").unwrap();
    assert_eq!(binary, vec![0x26, 0x01, 0x02, 0x03]);
}

#[test]
fn ldr_with_negative_byte_offset() {
    let binary = assemble("ldr r0, [r1-2]").unwrap();
    assert_eq!(binary, vec![0x29, 0x00, 0x01, 0xFE]);
}

#[test]
fn store_dword_little_endian() {
    let binary = assemble(".strd 0x12345678").unwrap();
    assert_eq!(binary, vec![0x78, 0x56, 0x34, 0x12]);
}

#[test]
fn store_byte_and_string() {
    let binary = assemble(".strb 0x41\n.strs \"Hi\"").unwrap();
    assert_eq!(binary, vec![0x41, 0x48, 0x69]);
}

#[test]
fn skip_reserves_zero_bytes() {
    let binary = assemble(".skip 3\nret").unwrap();
    assert_eq!(binary, vec![0x00, 0x00, 0x00, 0x7F]);
}

#[test]
fn set_variable_expands_to_number() {
    let binary = assemble(".set answer, 42\nmov r0, answer\nret").unwrap();
    assert_eq!(binary, vec![0x21, 0x00, 0x2A, 0x00, 0x00, 0x00, 0x7F]);
}

#[test]
fn set_variable_expands_to_label() {
    let binary = assemble("start: ret\n.set entry, start\njmpa entry").unwrap();
    assert_eq!(binary, vec![0x7F, 0x61, 0x00, 0x00, 0x00, 0x00]);
}

#[test]
fn duplicate_variable_rejected() {
    let err = assemble(".set a, 1\n.set a, 2\nret").unwrap_err();
    assert_eq!(err.msg, "variable with this name already exists");
}

#[test]
fn unknown_mnemonic_rejected() {
    let err = assemble("frobnicate r0").unwrap_err();
    assert_eq!(err.msg, "unrecognized instruction mnemonic");
}

#[test]
fn unknown_directive_rejected() {
    let err = assemble(".nosuch 1").unwrap_err();
    assert_eq!(err.msg, "unrecognized pseudo-instruction '.nosuch'");
}

#[test]
fn wrong_operand_shapes_rejected() {
    let err = assemble("mov 5, r0").unwrap_err();
    assert_eq!(err.msg, "unrecognized instruction, check the operands");
}

#[test]
fn bad_directive_operands_rejected() {
    let err = assemble(".strb \"x\"").unwrap_err();
    assert_eq!(err.msg, "bad operands for pseudo-instruction '.strb'");
}

#[test]
fn number_out_of_every_width_rejected() {
    let err = assemble("mov r0, 4294967296").unwrap_err();
    assert_eq!(err.msg, "number is out of imm32 range");
}

#[test]
fn unknown_register_name_rejected() {
    let err = assemble("mov r9, r0").unwrap_err();
    assert_eq!(err.msg, "unrecognized register");
}

#[test]
fn str_through_register_without_offset() {
    let binary = assemble("str [r0], r1").unwrap();
    assert_eq!(binary, vec![0x22, 0x00, 0x01]);
}

#[test]
fn label_too_wide_for_chosen_encoding_fails_loudly() {
    // `jmpr` only has an 8-bit immediate form; a forward label that
    // resolves past 255 must be rejected, not silently truncated.
    let err = assemble("jmpr far\n.skip 300\nfar: ret").unwrap_err();
    assert_eq!(err.msg, "resolved operands do not fit the selected encoding");
}

#[test]
fn comments_and_blank_lines_are_dropped() {
    let binary = assemble("; header\n\n   \nret\n").unwrap();
    assert_eq!(binary, vec![0x7F]);
}

#[test]
fn error_carries_line_and_span() {
    let err = assemble("ret\nmov r0, 4294967296").unwrap_err();
    assert_eq!(err.span.start.line, 2);
    assert_eq!(err.src_line, "mov r0, 4294967296");
    assert_eq!(err.span.start.column, 9);
}

#[test]
fn case_insensitive_registers() {
    let binary = assemble("mov R0, R1").unwrap();
    assert_eq!(binary, vec![0x20, 0x00, 0x01]);
}

#[test]
fn hex_and_decimal_numbers() {
    let binary = assemble("mov r0, 0xFF\nmov r1, 255").unwrap();
    assert_eq!(
        binary,
        vec![0x21, 0x00, 0xFF, 0x00, 0x00, 0x00, 0x21, 0x01, 0xFF, 0x00, 0x00, 0x00]
    );
}
