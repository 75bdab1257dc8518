//! The operand classifier: which abstract encoding shapes an operand can
//! satisfy. A numeric operand may satisfy several immediate widths at once;
//! the width predicates and the exact descriptor sets are spelled out here.

use vstd::prelude::*;

use crate::data::AsmError;
use crate::data::SourceSpan;
use crate::parser::Operand;
use crate::parser::OperandType;
use crate::parser::op_view;
use crate::parser::OperandLocV;
use crate::parser::OperandV;

verus! {

/// Descriptor of an operand: an abstract encoding shape, holding no data.
///
/// A single operand may have several descriptors. For example, the number
/// `123` is described by `Imm8` and `Imm32`; if it fitted in 5 bits it
/// would also be `Imm5`.
#[derive(Debug, Clone, Copy, PartialEq, Eq, Structural)]
pub enum OperandDescriptor {
    Register,
    Label,
    Imm5,
    Imm8,
    Imm32,
    MemoryImm32,
    MemoryRegNoOffset,
    MemoryRegOffset8,
    MemoryRegOffset32,
    MemoryRegOffsetReg,
    String,
}

impl DeepView for OperandDescriptor {
    type V = OperandDescriptor;

    open spec fn deep_view(&self) -> OperandDescriptor {
        *self
    }
}

/// A number fits the 5-bit immediate shape: `0..=31` when non-negative,
/// `-16..=15` when negative.
pub open spec fn fits_imm5(n: int) -> bool {
    if n >= 0 {
        n <= 31
    } else {
        -16 <= n && n <= 15
    }
}

/// A number fits the 8-bit immediate shape: `0..=255` when non-negative,
/// `-128..=127` when negative.
pub open spec fn fits_imm8(n: int) -> bool {
    if n >= 0 {
        n <= 255
    } else {
        -128 <= n && n <= 127
    }
}

/// A number fits the 32-bit immediate shape: `0..=u32::MAX` when
/// non-negative, `i32::MIN..=i32::MAX` when negative.
pub open spec fn fits_imm32(n: int) -> bool {
    if n >= 0 {
        n <= 0xFFFF_FFFF
    } else {
        -0x8000_0000 <= n && n <= 0x7FFF_FFFF
    }
}

/// The descriptors of a number, from narrowest to widest width.
pub open spec fn number_descriptors(n: int) -> Seq<OperandDescriptor> {
    (if fits_imm5(n) {
        seq![OperandDescriptor::Imm5]
    } else {
        Seq::empty()
    }) + (if fits_imm8(n) {
        seq![OperandDescriptor::Imm8]
    } else {
        Seq::empty()
    }) + (if fits_imm32(n) {
        seq![OperandDescriptor::Imm32]
    } else {
        Seq::empty()
    })
}

/// The descriptors of a register-plus-number memory operand's offset.
pub open spec fn mem_offset_descriptors(n: int) -> Seq<OperandDescriptor> {
    (if fits_imm8(n) {
        seq![OperandDescriptor::MemoryRegOffset8]
    } else {
        Seq::empty()
    }) + (if fits_imm32(n) {
        seq![OperandDescriptor::MemoryRegOffset32]
    } else {
        Seq::empty()
    })
}

/// A number in range for some supported width always gets at least one
/// descriptor, and a number out of every range gets none.
pub proof fn lemma_number_descriptors_nonempty(n: int)
    ensures
        fits_imm32(n) <==> number_descriptors(n).len() > 0,
{
}

/// Width containment: a number described by `Imm5` is always also
/// described by `Imm8` and `Imm32`.
pub proof fn lemma_width_containment(n: int)
    ensures
        number_descriptors(n).contains(OperandDescriptor::Imm5) ==> number_descriptors(
            n,
        ).contains(OperandDescriptor::Imm8) && number_descriptors(n).contains(
            OperandDescriptor::Imm32,
        ),
{
    if number_descriptors(n).contains(OperandDescriptor::Imm5) {
        assert(fits_imm5(n));
        assert(number_descriptors(n)[if fits_imm5(n) {
            1int
        } else {
            0int
        }] == OperandDescriptor::Imm8);
        assert(number_descriptors(n).last() == OperandDescriptor::Imm32);
    }
}

/// Membership in a number's descriptor set coincides with the width
/// predicates themselves.
pub proof fn lemma_number_descriptors_members(n: int)
    ensures
        number_descriptors(n).contains(OperandDescriptor::Imm5) <==> fits_imm5(n),
        number_descriptors(n).contains(OperandDescriptor::Imm8) <==> fits_imm8(n),
        number_descriptors(n).contains(OperandDescriptor::Imm32) <==> fits_imm32(n),
{
    if fits_imm5(n) {
        assert(number_descriptors(n)[0] == OperandDescriptor::Imm5);
    }
    if fits_imm8(n) {
        assert(number_descriptors(n)[if fits_imm5(n) {
            1int
        } else {
            0int
        }] == OperandDescriptor::Imm8);
    }
    if fits_imm32(n) {
        assert(number_descriptors(n).last() == OperandDescriptor::Imm32);
    }
}

/// The operand shapes the classifier understands. A memory access without
/// arithmetic must dereference a number or a register, and one with
/// arithmetic must add a number or a register to a register.
pub open spec fn operand_shape_supported(o: OperandV) -> bool {
    match o {
        OperandV::MemoryNoMath(inner) => (*inner matches OperandV::Number(_)) || (
        *inner matches OperandV::Register(_)),
        OperandV::MemoryWithMath { lhs, rhs, op } => (lhs.item matches OperandV::Register(_)) && (
        (rhs.item matches OperandV::Register(_)) || (rhs.item matches OperandV::Number(_))),
        _ => true,
    }
}

/// Classification succeeds unless a numeric value lies outside every
/// supported immediate width.
pub open spec fn operand_classifies(o: OperandV) -> bool {
    match o {
        OperandV::Number(n) => fits_imm32(n as int),
        OperandV::MemoryWithMath { lhs, rhs, op } => match rhs.item {
            OperandV::Number(n) => fits_imm32(n as int),
            _ => true,
        },
        _ => true,
    }
}

/// The descriptor set of a supported operand whose numbers are in range.
pub open spec fn operand_descriptors(o: OperandV) -> Seq<OperandDescriptor> {
    match o {
        OperandV::Register(_) => seq![OperandDescriptor::Register],
        OperandV::Identifier(_) => seq![OperandDescriptor::Label],
        OperandV::Number(n) => number_descriptors(n as int),
        OperandV::MemoryNoMath(inner) => if *inner matches OperandV::Number(_) {
            seq![OperandDescriptor::MemoryImm32]
        } else {
            seq![OperandDescriptor::MemoryRegNoOffset]
        },
        OperandV::MemoryWithMath { lhs, rhs, op } => match rhs.item {
            OperandV::Register(_) => seq![OperandDescriptor::MemoryRegOffsetReg],
            OperandV::Number(n) => mem_offset_descriptors(n as int),
            _ => Seq::empty(),
        },
        OperandV::String(_) => seq![OperandDescriptor::String],
    }
}

/// The span a classification error points at: the offset of a memory
/// operand with arithmetic, otherwise the operand itself.
pub open spec fn operand_error_span(o: OperandLocV) -> SourceSpan {
    match o.item {
        OperandV::MemoryWithMath { lhs, rhs, op } => rhs.span,
        _ => o.span,
    }
}

/// The uniform message of a classification failure.
pub open spec fn out_of_range_msg() -> Seq<char> {
    "number is out of imm32 range"@
}

impl OperandDescriptor {
    /// The descriptors of the number `num`.
    ///
    /// The number is assigned a descriptor for every immediate width whose
    /// range (see [`fits_imm5`], [`fits_imm8`], [`fits_imm32`]) contains
    /// it; it gets all applicable descriptors, narrowest first. A number
    /// outside every range reports a classification error against
    /// `num_span`.
    pub fn describe_number(num: i64, num_span: SourceSpan, orig_lines: &Vec<String>) -> (r: Result<
        Vec<OperandDescriptor>,
        AsmError,
    >)
        requires
            !fits_imm32(num as int) ==> 1 <= num_span.start.line <= orig_lines.len(),
        ensures
            fits_imm32(num as int) ==> (r matches Ok(v) && v@ == number_descriptors(num as int)),
            !fits_imm32(num as int) ==> (r matches Err(e) && e.msg@ == out_of_range_msg() && e.span
                == num_span && e.src_line@ == orig_lines@[num_span.start.line - 1]@),
    {
        let mut descriptors: Vec<OperandDescriptor> = Vec::new();

        let imm5_range: (i64, i64) = if num >= 0 {
            (0, 31)
        } else {
            (-16, 15)
        };
        let imm8_range: (i64, i64) = if num >= 0 {
            (0, 255)
        } else {
            (-128, 127)
        };
        let imm32_range: (i64, i64) = if num >= 0 {
            (0, 0xFFFF_FFFF)
        } else {
            (-0x8000_0000, 0x7FFF_FFFF)
        };
        if imm5_range.0 <= num && num <= imm5_range.1 {
            descriptors.push(OperandDescriptor::Imm5);
        }
        if imm8_range.0 <= num && num <= imm8_range.1 {
            descriptors.push(OperandDescriptor::Imm8);
        }
        if imm32_range.0 <= num && num <= imm32_range.1 {
            descriptors.push(OperandDescriptor::Imm32);
        }

        if descriptors.len() == 0 {
            Err(
                AsmError::new(
                    "number is out of imm32 range".to_owned(),
                    num_span,
                    orig_lines[num_span.start.line - 1].clone(),
                ),
            )
        } else {
            proof {
                assert(descriptors@ =~= number_descriptors(num as int));
            }
            Ok(descriptors)
        }
    }

    /// The descriptors of an operand.
    ///
    /// Registers, identifiers and strings each have exactly one shape;
    /// numbers follow [`Self::describe_number`]; memory operands follow
    /// the shape of what they dereference.
    pub fn describe_operand(operand: &Operand, orig_lines: &Vec<String>) -> (r: Result<
        Vec<OperandDescriptor>,
        AsmError,
    >)
        requires
            operand_shape_supported(operand.item.deep_view()),
            !operand_classifies(operand.item.deep_view()) ==> 1 <= operand_error_span(
                operand.deep_view(),
            ).start.line <= orig_lines.len(),
        ensures
            operand_classifies(operand.item.deep_view()) ==> (r matches Ok(v) && v@
                == operand_descriptors(operand.item.deep_view())),
            !operand_classifies(operand.item.deep_view()) ==> (r matches Err(e) && e.msg@
                == out_of_range_msg() && e.span == operand_error_span(operand.deep_view())
                && e.src_line@ == orig_lines@[operand_error_span(
                operand.deep_view(),
            ).start.line - 1]@),
    {
        match &operand.item {
            OperandType::Register(_) => Ok(vec![OperandDescriptor::Register]),
            OperandType::Identifier(_) => Ok(vec![OperandDescriptor::Label]),
            OperandType::Number(num) => Self::describe_number(*num, operand.span, orig_lines),
            OperandType::MemoryNoMath(sub_operand) => match &**sub_operand {
                OperandType::Number(_) => Ok(vec![OperandDescriptor::MemoryImm32]),
                OperandType::Register(_) => Ok(vec![OperandDescriptor::MemoryRegNoOffset]),
                _ => {
                    proof {
                        assert(!(op_view(**sub_operand) matches OperandV::Number(_)) && !(
                        op_view(**sub_operand) matches OperandV::Register(_)));
                    }
                    vstd::pervasive::unreached()
                },
            },
            OperandType::MemoryWithMath { lhs, rhs, op } => match &rhs.item {
                OperandType::Register(_) => Ok(vec![OperandDescriptor::MemoryRegOffsetReg]),
                OperandType::Number(num) => {
                    proof {
                        assert(op_view(rhs.item) == OperandV::Number(*num));
                    }
                    let rhs_descriptors = Self::describe_number(*num, rhs.span, orig_lines)?;
                    let mut mem_descriptors: Vec<OperandDescriptor> = Vec::new();
                    if (*num >= 0 && *num <= 255) || (*num < 0 && -128 <= *num) {
                        mem_descriptors.push(OperandDescriptor::MemoryRegOffset8);
                    }
                    if (*num >= 0 && *num <= 0xFFFF_FFFF) || (*num < 0 && -0x8000_0000 <= *num) {
                        mem_descriptors.push(OperandDescriptor::MemoryRegOffset32);
                    }
                    proof {
                        assert(mem_descriptors@ =~= mem_offset_descriptors(*num as int));
                    }
                    Ok(mem_descriptors)
                },
                _ => {
                    proof {
                        assert(!(op_view(rhs.item) matches OperandV::Number(_)) && !(
                        op_view(rhs.item) matches OperandV::Register(_)));
                    }
                    vstd::pervasive::unreached()
                },
            },
            OperandType::String(_) => Ok(vec![OperandDescriptor::String]),
        }
    }
}

} // verus!
