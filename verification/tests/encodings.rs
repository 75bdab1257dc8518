//! Byte-exact encoding tests across the instruction table.

use asm_rust::codegen::codegen;
use asm_rust::data::AsmError;
use asm_rust::data::Located;
use asm_rust::data::SourceLoc;
use asm_rust::data::SourceSpan;
use asm_rust::parser::parse;
use asm_rust::parser::InstrItem;
use asm_rust::parser::OperandType;
use asm_rust::parser::ParsedProgram;
use asm_rust::preproc::preprocess;
use asm_rust::scanner::tokenize;

fn assemble(src_text: &str) -> Result<Vec<u8>, AsmError> {
    let preproc_src = preprocess(src_text);
    let tok_src = tokenize(preproc_src)?;
    let parsed_prog = parse(tok_src)?;
    codegen(&parsed_prog)
}

#[test]
fn arithmetic_register_forms() {
    assert_eq!(assemble("add r1, r2").unwrap(), vec![0x42, 0x01, 0x02]);
    assert_eq!(assemble("sub r1, r2").unwrap(), vec![0x44, 0x01, 0x02]);
    assert_eq!(assemble("and r1, r2").unwrap(), vec![0x4C, 0x01, 0x02]);
    assert_eq!(assemble("tst r1, r2").unwrap(), vec![0x5C, 0x01, 0x02]);
    assert_eq!(assemble("shr r1, r2").unwrap(), vec![0x54, 0x01, 0x02]);
    assert_eq!(assemble("cmp r1, r2").unwrap(), vec![0x5A, 0x01, 0x02]);
    assert_eq!(assemble("not r1").unwrap(), vec![0x57, 0x01]);
}

#[test]
fn arithmetic_immediate_forms() {
    assert_eq!(
        assemble("add r1, 0x1000").unwrap(),
        vec![0x41, 0x01, 0x00, 0x10, 0x00, 0x00]
    );
    assert_eq!(
        assemble("sub r1, 1").unwrap(),
        vec![0x43, 0x01, 0x01, 0x00, 0x00, 0x00]
    );
    assert_eq!(
        assemble("and r1, 15").unwrap(),
        vec![0x4B, 0x01, 0x0F, 0x00, 0x00, 0x00]
    );
    assert_eq!(
        assemble("tst r1, 15").unwrap(),
        vec![0x55, 0x01, 0x0F, 0x00, 0x00, 0x00]
    );
}

#[test]
fn jumps_and_calls() {
    assert_eq!(assemble("jmpr 4").unwrap(), vec![0x60, 0x04]);
    assert_eq!(assemble("jeqr 4").unwrap(), vec![0x64, 0x04]);
    assert_eq!(assemble("jner 4").unwrap(), vec![0x68, 0x04]);
    assert_eq!(assemble("jmpa r3").unwrap(), vec![0x62, 0x03]);
    assert_eq!(
        assemble("call 0x20").unwrap(),
        vec![0x7D, 0x20, 0x00, 0x00, 0x00]
    );
    assert_eq!(assemble("call r3").unwrap(), vec![0x7E, 0x03]);
    assert_eq!(assemble("halt").unwrap(), vec![0xA1]);
    assert_eq!(assemble("iret").unwrap(), vec![0xA3]);
}

#[test]
fn memory_forms() {
    assert_eq!(assemble("ldr r0, [r1]").unwrap(), vec![0x28, 0x00, 0x01]);
    assert_eq!(
        assemble("ldr r0, [r1+5]").unwrap(),
        vec![0x29, 0x00, 0x01, 0x05]
    );
    assert_eq!(
        assemble("ldr r0, [r1+r2]").unwrap(),
        vec![0x2B, 0x00, 0x01, 0x02]
    );
    assert_eq!(
        assemble("str [r1+5], r0").unwrap(),
        vec![0x24, 0x01, 0x05, 0x00]
    );
}

#[test]
fn dereferenced_absolute_address_is_unimplemented() {
    // The table admits `str [imm32], reg`, but the minimal ISA leaves
    // its emission unimplemented; it must fail loudly.
    let err = assemble("str [5], r0").unwrap_err();
    assert_eq!(err.msg, "unsupported operand encoding");
}

fn span1() -> SourceSpan {
    let loc = SourceLoc { line: 1, column: 1 };
    SourceSpan { start: loc, end: loc }
}

#[test]
fn stack_pointer_register_code() {
    // `sp` never survives lexing as a register token, but the core's
    // input contract admits it as a register operand directly.
    let reg = |name: &str| Located::new(OperandType::Register(name.to_string()), span1());
    let instr = Located::new(
        InstrItem {
            label: None,
            mnemonic: Some("mov".to_string()),
            operands: vec![reg("sp"), reg("r1")],
        },
        span1(),
    );
    let prog = ParsedProgram {
        instructions: vec![instr],
        variables: Vec::new(),
        labels: Vec::new(),
        orig_lines: vec!["mov sp, r1".to_string()],
    };
    assert_eq!(codegen(&prog).unwrap(), vec![0x20, 0x08, 0x01]);
}

#[test]
fn first_matching_variant_wins() {
    // 7 fits both the 5-bit and the 32-bit immediate; `shr` lists the
    // register form first, then the imm5 form, so imm5 wins over
    // nothing else matching.
    assert_eq!(assemble("shr r0, 7").unwrap(), vec![0x53, 0x00, 0x07]);
    // For `mov` the immediate form is the only match for a number.
    assert_eq!(
        assemble("mov r0, 7").unwrap(),
        vec![0x21, 0x00, 0x07, 0x00, 0x00, 0x00]
    );
}

#[test]
fn later_label_declaration_wins() {
    let binary = assemble("a: ret\na: halt\njmpa a").unwrap();
    assert_eq!(binary, vec![0x7F, 0xA1, 0x61, 0x01, 0x00, 0x00, 0x00]);
}
