//! The ISA catalogue: for every mnemonic the ordered candidate encodings
//! (opcode byte, required operand shapes, encoded size), and for every
//! directive its required operand shape and its layout rule. The spec
//! tables are the reference; the lookup functions return data proved equal
//! to them.

use vstd::prelude::*;

use crate::descriptor::OperandDescriptor as Od;
use crate::strutil::str_eq;

verus! {

/// One candidate encoding of a regular instruction.
#[derive(Debug, Clone)]
pub struct InstrDescriptor {
    pub opcode: u8,
    pub operands: Vec<Od>,
    pub size: usize,
}

/// The mathematical value of an encoding candidate.
#[verifier::ext_equal]
pub struct VariantV {
    pub opcode: u8,
    pub operands: Seq<Od>,
    pub size: usize,
}

impl DeepView for InstrDescriptor {
    type V = VariantV;

    open spec fn deep_view(&self) -> VariantV {
        VariantV { opcode: self.opcode, operands: self.operands@, size: self.size }
    }
}

/// The layout rule of a directive: how its size and bytes are computed.
#[derive(Debug, Clone, Copy, PartialEq, Eq, Structural)]
pub enum PseudoKind {
    /// Pad with zero bytes up to an absolute address.
    Origin,
    /// Reserve a number of zero bytes.
    Skip,
    /// A 4-byte little-endian literal.
    StoreDword,
    /// A 1-byte literal.
    StoreByte,
    /// The raw bytes of a string literal.
    StoreString,
}

/// The catalogue entry of a directive.
#[derive(Debug, Clone)]
pub struct PseudoInstrDescriptor {
    pub operands: Vec<Od>,
    pub kind: PseudoKind,
}

/// The mathematical value of a directive entry.
#[verifier::ext_equal]
pub struct PseudoV {
    pub operands: Seq<Od>,
    pub kind: PseudoKind,
}

impl DeepView for PseudoInstrDescriptor {
    type V = PseudoV;

    open spec fn deep_view(&self) -> PseudoV {
        PseudoV { operands: self.operands@, kind: self.kind }
    }
}

/// Shorthand for one spec-level encoding candidate.
pub open spec fn variant_v(opcode: u8, operands: Seq<Od>, size: usize) -> VariantV {
    VariantV { opcode, operands, size }
}

/// The instruction table: every mnemonic with its ordered candidate
/// encodings, exactly as the ISA defines them.
pub open spec fn opcode_table(m: Seq<char>) -> Option<Seq<VariantV>> {
    if m == "mov"@ {
        Some(
            seq![
                variant_v(0x20, seq![Od::Register, Od::Register], 2),
                variant_v(0x21, seq![Od::Register, Od::Imm32], 6),
            ],
        )
    } else if m == "str"@ {
        Some(
            seq![
                variant_v(0x23, seq![Od::MemoryImm32, Od::Register], 6),
                variant_v(0x22, seq![Od::MemoryRegNoOffset, Od::Register], 2),
                variant_v(0x24, seq![Od::MemoryRegOffset8, Od::Register], 3),
                variant_v(0x25, seq![Od::MemoryRegOffset32, Od::Register], 6),
                variant_v(0x26, seq![Od::MemoryRegOffsetReg, Od::Register], 3),
            ],
        )
    } else if m == "ldr"@ {
        Some(
            seq![
                variant_v(0x27, seq![Od::Register, Od::MemoryImm32], 6),
                variant_v(0x28, seq![Od::Register, Od::MemoryRegNoOffset], 2),
                variant_v(0x29, seq![Od::Register, Od::MemoryRegOffset8], 3),
                variant_v(0x2A, seq![Od::Register, Od::MemoryRegOffset32], 6),
                variant_v(0x2B, seq![Od::Register, Od::MemoryRegOffsetReg], 3),
            ],
        )
    } else if m == "add"@ {
        Some(
            seq![
                variant_v(0x42, seq![Od::Register, Od::Register], 2),
                variant_v(0x41, seq![Od::Register, Od::Imm32], 6),
            ],
        )
    } else if m == "sub"@ {
        Some(
            seq![
                variant_v(0x44, seq![Od::Register, Od::Register], 2),
                variant_v(0x43, seq![Od::Register, Od::Imm32], 6),
            ],
        )
    } else if m == "not"@ {
        Some(seq![variant_v(0x57, seq![Od::Register], 2)])
    } else if m == "and"@ {
        Some(
            seq![
                variant_v(0x4C, seq![Od::Register, Od::Register], 2),
                variant_v(0x4B, seq![Od::Register, Od::Imm32], 6),
            ],
        )
    } else if m == "shr"@ {
        Some(
            seq![
                variant_v(0x54, seq![Od::Register, Od::Register], 2),
                variant_v(0x53, seq![Od::Register, Od::Imm5], 3),
            ],
        )
    } else if m == "cmp"@ {
        Some(seq![variant_v(0x5A, seq![Od::Register, Od::Register], 2)])
    } else if m == "tst"@ {
        Some(
            seq![
                variant_v(0x5C, seq![Od::Register, Od::Register], 2),
                variant_v(0x55, seq![Od::Register, Od::Imm32], 6),
            ],
        )
    } else if m == "jmpr"@ {
        Some(seq![variant_v(0x60, seq![Od::Imm8], 2)])
    } else if m == "jmpa"@ {
        Some(
            seq![
                variant_v(0x61, seq![Od::Imm32], 5),
                variant_v(0x62, seq![Od::Register], 2),
            ],
        )
    } else if m == "jeqr"@ {
        Some(seq![variant_v(0x64, seq![Od::Imm8], 2)])
    } else if m == "jner"@ {
        Some(seq![variant_v(0x68, seq![Od::Imm8], 2)])
    } else if m == "call"@ {
        Some(
            seq![
                variant_v(0x7D, seq![Od::Imm32], 5),
                variant_v(0x7E, seq![Od::Register], 2),
            ],
        )
    } else if m == "ret"@ {
        Some(seq![variant_v(0x7F, seq![], 1)])
    } else if m == "halt"@ {
        Some(seq![variant_v(0xA1, seq![], 1)])
    } else if m == "iret"@ {
        Some(seq![variant_v(0xA3, seq![], 1)])
    } else {
        None
    }
}

/// The directive table: every directive name with its required operand
/// shape and layout rule.
pub open spec fn pseudo_table(m: Seq<char>) -> Option<PseudoV> {
    if m == ".origin"@ {
        Some(PseudoV { operands: seq![Od::Imm32], kind: PseudoKind::Origin })
    } else if m == ".skip"@ {
        Some(PseudoV { operands: seq![Od::Imm32], kind: PseudoKind::Skip })
    } else if m == ".strd"@ {
        Some(PseudoV { operands: seq![Od::Imm32], kind: PseudoKind::StoreDword })
    } else if m == ".strb"@ {
        Some(PseudoV { operands: seq![Od::Imm8], kind: PseudoKind::StoreByte })
    } else if m == ".strs"@ {
        Some(PseudoV { operands: seq![Od::String], kind: PseudoKind::StoreString })
    } else {
        None
    }
}

/// Builds one encoding candidate.
fn mk(opcode: u8, operands: Vec<Od>, size: usize) -> (r: InstrDescriptor)
    ensures
        r.deep_view() == variant_v(opcode, operands@, size),
{
    InstrDescriptor { opcode, operands, size }
}

/// The ordered candidate encodings of a mnemonic, or `None` for a
/// mnemonic the ISA does not define. The result equals [`opcode_table`].
pub fn opcode_variants(mnemonic: &str) -> (r: Option<Vec<InstrDescriptor>>)
    ensures
        match r {
            Some(v) => opcode_table(mnemonic@) == Some(v.deep_view()),
            None => opcode_table(mnemonic@) is None,
        },
{
    if str_eq(mnemonic, "mov") {
        let v = vec![
            mk(0x20, vec![Od::Register, Od::Register], 2),
            mk(0x21, vec![Od::Register, Od::Imm32], 6),
        ];
        proof {
            assert(v.deep_view() =~~= opcode_table(mnemonic@).unwrap());
        }
        Some(v)
    } else if str_eq(mnemonic, "str") {
        let v = vec![
            mk(0x23, vec![Od::MemoryImm32, Od::Register], 6),
            mk(0x22, vec![Od::MemoryRegNoOffset, Od::Register], 2),
            mk(0x24, vec![Od::MemoryRegOffset8, Od::Register], 3),
            mk(0x25, vec![Od::MemoryRegOffset32, Od::Register], 6),
            mk(0x26, vec![Od::MemoryRegOffsetReg, Od::Register], 3),
        ];
        proof {
            assert(v.deep_view() =~~= opcode_table(mnemonic@).unwrap());
        }
        Some(v)
    } else if str_eq(mnemonic, "ldr") {
        let v = vec![
            mk(0x27, vec![Od::Register, Od::MemoryImm32], 6),
            mk(0x28, vec![Od::Register, Od::MemoryRegNoOffset], 2),
            mk(0x29, vec![Od::Register, Od::MemoryRegOffset8], 3),
            mk(0x2A, vec![Od::Register, Od::MemoryRegOffset32], 6),
            mk(0x2B, vec![Od::Register, Od::MemoryRegOffsetReg], 3),
        ];
        proof {
            assert(v.deep_view() =~~= opcode_table(mnemonic@).unwrap());
        }
        Some(v)
    } else if str_eq(mnemonic, "add") {
        let v = vec![
            mk(0x42, vec![Od::Register, Od::Register], 2),
            mk(0x41, vec![Od::Register, Od::Imm32], 6),
        ];
        proof {
            assert(v.deep_view() =~~= opcode_table(mnemonic@).unwrap());
        }
        Some(v)
    } else if str_eq(mnemonic, "sub") {
        let v = vec![
            mk(0x44, vec![Od::Register, Od::Register], 2),
            mk(0x43, vec![Od::Register, Od::Imm32], 6),
        ];
        proof {
            assert(v.deep_view() =~~= opcode_table(mnemonic@).unwrap());
        }
        Some(v)
    } else if str_eq(mnemonic, "not") {
        let v = vec![
            mk(0x57, vec![Od::Register], 2),
        ];
        proof {
            assert(v.deep_view() =~~= opcode_table(mnemonic@).unwrap());
        }
        Some(v)
    } else if str_eq(mnemonic, "and") {
        let v = vec![
            mk(0x4C, vec![Od::Register, Od::Register], 2),
            mk(0x4B, vec![Od::Register, Od::Imm32], 6),
        ];
        proof {
            assert(v.deep_view() =~~= opcode_table(mnemonic@).unwrap());
        }
        Some(v)
    } else if str_eq(mnemonic, "shr") {
        let v = vec![
            mk(0x54, vec![Od::Register, Od::Register], 2),
            mk(0x53, vec![Od::Register, Od::Imm5], 3),
        ];
        proof {
            assert(v.deep_view() =~~= opcode_table(mnemonic@).unwrap());
        }
        Some(v)
    } else if str_eq(mnemonic, "cmp") {
        let v = vec![
            mk(0x5A, vec![Od::Register, Od::Register], 2),
        ];
        proof {
            assert(v.deep_view() =~~= opcode_table(mnemonic@).unwrap());
        }
        Some(v)
    } else if str_eq(mnemonic, "tst") {
        let v = vec![
            mk(0x5C, vec![Od::Register, Od::Register], 2),
            mk(0x55, vec![Od::Register, Od::Imm32], 6),
        ];
        proof {
            assert(v.deep_view() =~~= opcode_table(mnemonic@).unwrap());
        }
        Some(v)
    } else if str_eq(mnemonic, "jmpr") {
        let v = vec![
            mk(0x60, vec![Od::Imm8], 2),
        ];
        proof {
            assert(v.deep_view() =~~= opcode_table(mnemonic@).unwrap());
        }
        Some(v)
    } else if str_eq(mnemonic, "jmpa") {
        let v = vec![
            mk(0x61, vec![Od::Imm32], 5),
            mk(0x62, vec![Od::Register], 2),
        ];
        proof {
            assert(v.deep_view() =~~= opcode_table(mnemonic@).unwrap());
        }
        Some(v)
    } else if str_eq(mnemonic, "jeqr") {
        let v = vec![
            mk(0x64, vec![Od::Imm8], 2),
        ];
        proof {
            assert(v.deep_view() =~~= opcode_table(mnemonic@).unwrap());
        }
        Some(v)
    } else if str_eq(mnemonic, "jner") {
        let v = vec![
            mk(0x68, vec![Od::Imm8], 2),
        ];
        proof {
            assert(v.deep_view() =~~= opcode_table(mnemonic@).unwrap());
        }
        Some(v)
    } else if str_eq(mnemonic, "call") {
        let v = vec![
            mk(0x7D, vec![Od::Imm32], 5),
            mk(0x7E, vec![Od::Register], 2),
        ];
        proof {
            assert(v.deep_view() =~~= opcode_table(mnemonic@).unwrap());
        }
        Some(v)
    } else if str_eq(mnemonic, "ret") {
        let v = vec![
            mk(0x7F, vec![], 1),
        ];
        proof {
            assert(v.deep_view() =~~= opcode_table(mnemonic@).unwrap());
        }
        Some(v)
    } else if str_eq(mnemonic, "halt") {
        let v = vec![
            mk(0xA1, vec![], 1),
        ];
        proof {
            assert(v.deep_view() =~~= opcode_table(mnemonic@).unwrap());
        }
        Some(v)
    } else if str_eq(mnemonic, "iret") {
        let v = vec![
            mk(0xA3, vec![], 1),
        ];
        proof {
            assert(v.deep_view() =~~= opcode_table(mnemonic@).unwrap());
        }
        Some(v)
    } else {
        None
    }
}

/// The catalogue entry of a directive name, or `None` for a name the
/// assembler does not define. The result equals [`pseudo_table`].
pub fn pseudo_descriptor(mnemonic: &str) -> (r: Option<PseudoInstrDescriptor>)
    ensures
        match r {
            Some(p) => pseudo_table(mnemonic@) == Some(p.deep_view()),
            None => pseudo_table(mnemonic@) is None,
        },
{
    if str_eq(mnemonic, ".origin") {
        let p = PseudoInstrDescriptor { operands: vec![Od::Imm32], kind: PseudoKind::Origin };
        proof {
            assert(p.deep_view() =~~= pseudo_table(mnemonic@).unwrap());
        }
        Some(p)
    } else if str_eq(mnemonic, ".skip") {
        let p = PseudoInstrDescriptor { operands: vec![Od::Imm32], kind: PseudoKind::Skip };
        proof {
            assert(p.deep_view() =~~= pseudo_table(mnemonic@).unwrap());
        }
        Some(p)
    } else if str_eq(mnemonic, ".strd") {
        let p = PseudoInstrDescriptor { operands: vec![Od::Imm32], kind: PseudoKind::StoreDword };
        proof {
            assert(p.deep_view() =~~= pseudo_table(mnemonic@).unwrap());
        }
        Some(p)
    } else if str_eq(mnemonic, ".strb") {
        let p = PseudoInstrDescriptor { operands: vec![Od::Imm8], kind: PseudoKind::StoreByte };
        proof {
            assert(p.deep_view() =~~= pseudo_table(mnemonic@).unwrap());
        }
        Some(p)
    } else if str_eq(mnemonic, ".strs") {
        let p = PseudoInstrDescriptor { operands: vec![Od::String], kind: PseudoKind::StoreString };
        proof {
            assert(p.deep_view() =~~= pseudo_table(mnemonic@).unwrap());
        }
        Some(p)
    } else {
        None
    }
}

} // verus!
