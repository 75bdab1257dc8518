//! The code-generation pipeline: resolving instructions to addresses,
//! sizes and encodings, resolving label references, re-validating the
//! chosen encodings against the resolved values, and emitting the final
//! byte image.

use vstd::prelude::*;
use vstd::string::StrSliceExecFns;
use vstd::string::StringExecFns;
use vstd::utf8::encode_utf8;

use crate::data::AsmError;
use crate::data::ErrV;
use crate::data::err_matches;
use crate::data::Located;
use crate::data::LocatedV;
use crate::data::SourceSpan;
use crate::descriptor::OperandDescriptor as Od;
use crate::descriptor::fits_imm32;
use crate::descriptor::fits_imm8;
use crate::descriptor::operand_classifies;
use crate::descriptor::operand_descriptors;
use crate::descriptor::operand_error_span;
use crate::descriptor::number_descriptors;
use crate::descriptor::operand_shape_supported;
use crate::descriptor::out_of_range_msg;
use crate::parser::Instr;
use crate::parser::InstrItemV;
use crate::parser::InstrV;
use crate::parser::Operand;
use crate::parser::OperandLocV;
use crate::parser::OperandType;
use crate::parser::OperandV;
use crate::parser::op_view;
use crate::parser::ParsedProgram;
use crate::strutil::str_starts_with_char;
use crate::tables::InstrDescriptor;
use crate::tables::PseudoInstrDescriptor;
use crate::tables::PseudoKind;
use crate::tables::PseudoV;
use crate::tables::VariantV;
use crate::tables::opcode_table;
use crate::tables::opcode_variants;
use crate::tables::pseudo_descriptor;
use crate::tables::pseudo_table;

verus! {

/// The encoding an instruction resolved to: one of the candidate
/// encodings of a regular mnemonic, or the catalogue entry of a
/// directive.
#[derive(Debug, Clone)]
pub enum ChosenDesc {
    Regular(InstrDescriptor),
    Pseudo(PseudoInstrDescriptor),
}

/// The mathematical value of a chosen encoding.
#[verifier::ext_equal]
pub enum ChosenV {
    Regular(VariantV),
    Pseudo(PseudoV),
}

impl DeepView for ChosenDesc {
    type V = ChosenV;

    open spec fn deep_view(&self) -> ChosenV {
        match self {
            ChosenDesc::Regular(d) => ChosenV::Regular(d.deep_view()),
            ChosenDesc::Pseudo(p) => ChosenV::Pseudo(p.deep_view()),
        }
    }
}

/// A resolved pseudo- or regular instruction.
///
/// An instruction is resolved when its address, size and encoding are
/// determined: the size feeds the next instruction's address, the address
/// feeds label resolution, and the encoding drives byte emission.
#[derive(Debug)]
pub struct ResolvedInstr {
    pub addr: usize,
    pub instr: Instr,
    pub desc: Option<ChosenDesc>,
    pub size: usize,
}

/// The mathematical value of a resolved instruction.
#[verifier::ext_equal]
pub struct ResolvedV {
    pub addr: usize,
    pub instr: InstrV,
    pub desc: Option<ChosenV>,
    pub size: usize,
}

impl DeepView for ResolvedInstr {
    type V = ResolvedV;

    open spec fn deep_view(&self) -> ResolvedV {
        ResolvedV {
            addr: self.addr,
            instr: self.instr.deep_view(),
            desc: self.desc.deep_view(),
            size: self.size,
        }
    }
}

// ---------------------------------------------------------------------
// Error messages.
// ---------------------------------------------------------------------
pub open spec fn unrec_mnemonic_msg() -> Seq<char> {
    "unrecognized instruction mnemonic"@
}

pub open spec fn no_variant_msg() -> Seq<char> {
    "unrecognized instruction, check the operands"@
}

pub open spec fn unrec_pseudo_msg(m: Seq<char>) -> Seq<char> {
    "unrecognized pseudo-instruction '"@ + m + "'"@
}

pub open spec fn bad_pseudo_operands_msg(m: Seq<char>) -> Seq<char> {
    "bad operands for pseudo-instruction '"@ + m + "'"@
}

pub open spec fn origin_backwards_msg(addr: usize) -> Seq<char> {
    "address must be greater than or equal to "@ + crate::strutil::dec_str(addr as nat)
}

pub open spec fn skip_negative_msg() -> Seq<char> {
    "expected a positive number"@
}

pub open spec fn too_large_msg() -> Seq<char> {
    "program does not fit the address space"@
}

pub open spec fn unresolved_label_msg(name: Seq<char>) -> Seq<char> {
    "unresolved label '"@ + name + "'"@
}

pub open spec fn encoding_mismatch_msg() -> Seq<char> {
    "resolved operands do not fit the selected encoding"@
}

pub open spec fn unrec_register_msg() -> Seq<char> {
    "unrecognized register"@
}

pub open spec fn unsupported_encoding_msg() -> Seq<char> {
    "unsupported operand encoding"@
}

// ---------------------------------------------------------------------
// Operand matching.
// ---------------------------------------------------------------------
/// Whether a required descriptor accepts an operand with the given
/// descriptor set. An operand that is still a bare symbolic reference
/// (its set is exactly `[Label]`) is accepted wherever an 8-bit or a
/// 32-bit immediate is required, since its eventual width is unknown
/// until labels are resolved.
pub open spec fn desc_matches(required: Od, actual: Seq<Od>) -> bool {
    if actual.len() == 1 && actual[0] is Label {
        required == Od::Imm8 || required == Od::Imm32
    } else {
        actual.contains(required)
    }
}

/// Position-by-position matching of a required descriptor list against
/// the operands' descriptor sets.
pub open spec fn operands_match(required: Seq<Od>, actual: Seq<Seq<Od>>) -> bool {
    &&& required.len() == actual.len()
    &&& forall|i: int| 0 <= i < required.len() ==> desc_matches(required[i], #[trigger] actual[i])
}

/// The first candidate encoding, from position `i` on, whose required
/// descriptors match, if any.
pub open spec fn first_match(variants: Seq<VariantV>, actual: Seq<Seq<Od>>, i: int) -> Option<
    VariantV,
>
    decreases variants.len() - i,
{
    if i < 0 || i >= variants.len() {
        None
    } else if operands_match(variants[i].operands, actual) {
        Some(variants[i])
    } else {
        first_match(variants, actual, i + 1)
    }
}

/// Whether the descriptor set contains the given descriptor.
fn descs_contain(v: &Vec<Od>, d: Od) -> (r: bool)
    ensures
        r == v@.contains(d),
{
    let mut i: usize = 0;
    while i < v.len()
        invariant
            i <= v@.len(),
            forall|j: int| 0 <= j < i ==> v@[j] != d,
        decreases v@.len() - i,
    {
        if v[i] == d {
            return true;
        }
        i += 1;
    }
    false
}

/// Whether a required descriptor accepts an operand with descriptor set
/// `actual`; see [`desc_matches`].
fn desc_matches_exec(required: Od, actual: &Vec<Od>) -> (r: bool)
    ensures
        r == desc_matches(required, actual@),
{
    if actual.len() == 1 && matches!(actual[0], Od::Label) {
        matches!(required, Od::Imm8) || matches!(required, Od::Imm32)
    } else {
        descs_contain(actual, required)
    }
}

/// Position-by-position matching; see [`operands_match`].
fn operands_match_exec(required: &Vec<Od>, actual: &Vec<Vec<Od>>) -> (r: bool)
    ensures
        r == operands_match(required@, actual.deep_view()),
{
    if required.len() != actual.len() {
        return false;
    }
    let mut i: usize = 0;
    while i < required.len()
        invariant
            i <= required@.len(),
            required@.len() == actual@.len(),
            forall|j: int|
                0 <= j < i ==> desc_matches(required@[j], #[trigger] actual.deep_view()[j]),
        decreases required@.len() - i,
    {
        let m = desc_matches_exec(required[i], &actual[i]);
        proof {
            assert(actual.deep_view()[i as int] == actual@[i as int]@);
        }
        if !m {
            return false;
        }
        i += 1;
    }
    true
}

// ---------------------------------------------------------------------
// Classifying an instruction's operand list.
// ---------------------------------------------------------------------
/// The classification error of one operand.
pub open spec fn classify_err(o: OperandLocV) -> ErrV {
    ErrV {
        msg: out_of_range_msg(),
        span: operand_error_span(o),
        line: operand_error_span(o).start.line,
    }
}

/// Classifies the operands from position `i` on: the descriptor set of
/// each, or the classification error of the first operand whose number
/// fits no supported width.
pub open spec fn classify_from(ops: Seq<OperandLocV>, i: int) -> Result<Seq<Seq<Od>>, ErrV>
    decreases ops.len() - i,
{
    if i < 0 || i >= ops.len() {
        Ok(Seq::empty())
    } else if !operand_classifies(ops[i].item) {
        Err(classify_err(ops[i]))
    } else {
        match classify_from(ops, i + 1) {
            Ok(t) => Ok(seq![operand_descriptors(ops[i].item)] + t),
            Err(e) => Err(e),
        }
    }
}

/// Span lines that index into the original source.
pub open spec fn span_line_ok(sp: SourceSpan, n_lines: int) -> bool {
    1 <= sp.start.line <= n_lines
}

/// Every span of the operand (its own and those of its sub-operands)
/// names a line of the original source.
pub open spec fn operand_lines_ok(o: OperandLocV, n_lines: int) -> bool {
    &&& span_line_ok(o.span, n_lines)
    &&& match o.item {
        OperandV::MemoryWithMath { lhs, rhs, op } => span_line_ok(lhs.span, n_lines)
            && span_line_ok(rhs.span, n_lines),
        _ => true,
    }
}

/// Every span of the instruction names a line of the original source.
pub open spec fn instr_lines_ok(iv: InstrV, n_lines: int) -> bool {
    &&& span_line_ok(iv.span, n_lines)
    &&& forall|i: int|
        0 <= i < iv.item.operands.len() ==> operand_lines_ok(#[trigger] iv.item.operands[i], n_lines)
}

/// The classifier understands every operand's shape; see
/// [`operand_shape_supported`].
pub open spec fn instr_shapes_supported(iv: InstrV) -> bool {
    forall|i: int|
        0 <= i < iv.item.operands.len() ==> operand_shape_supported(
            (#[trigger] iv.item.operands[i]).item,
        )
}

/// An `.origin` or `.skip` directive needs its operand's numeric value to
/// compute a size, so a bare symbolic reference cannot stand there.
pub open spec fn pseudo_size_arg_ok(iv: InstrV) -> bool {
    match iv.item.mnemonic {
        Some(m) => (m == ".origin"@ || m == ".skip"@) ==> !(iv.item.operands.len() == 1
            && iv.item.operands[0].item is Identifier),
        None => true,
    }
}

/// Classifies every operand of the list; the result equals
/// [`classify_from`] at position 0.
fn describe_operands(operands: &Vec<Operand>, orig_lines: &Vec<String>) -> (r: Result<
    Vec<Vec<Od>>,
    AsmError,
>)
    requires
        forall|i: int|
            0 <= i < operands@.len() ==> operand_shape_supported(
                (#[trigger] operands@[i]).deep_view().item,
            ),
        forall|i: int|
            0 <= i < operands@.len() ==> operand_lines_ok(
                (#[trigger] operands@[i]).deep_view(),
                orig_lines@.len() as int,
            ),
    ensures
        match r {
            Ok(v) => classify_from(operands.deep_view(), 0) == Ok::<_, ErrV>(v.deep_view()),
            Err(e) => {
                &&& classify_from(operands.deep_view(), 0) matches Err(ev)
                &&& err_matches(e, ev, orig_lines.deep_view())
            },
        },
{
    let ghost opsv = operands.deep_view();
    let mut descs: Vec<Vec<Od>> = Vec::new();
    let mut i: usize = 0;
    while i < operands.len()
        invariant
            i <= operands@.len(),
            opsv == operands.deep_view(),
            opsv.len() == operands@.len(),
            descs@.len() == i,
            forall|j: int|
                0 <= j < opsv.len() ==> operand_shape_supported((#[trigger] opsv[j]).item),
            forall|j: int|
                0 <= j < opsv.len() ==> operand_lines_ok(
                    #[trigger] opsv[j],
                    orig_lines@.len() as int,
                ),
            forall|j: int| 0 <= j < i ==> operand_classifies((#[trigger] opsv[j]).item),
            forall|j: int|
                0 <= j < i ==> #[trigger] descs.deep_view()[j] == operand_descriptors(opsv[j].item),
        decreases operands@.len() - i,
    {
        proof {
            assert(opsv[i as int] == operands@[i as int].deep_view());
        }
        let d = match Od::describe_operand(&operands[i], orig_lines) {
            Ok(d) => d,
            Err(e) => {
                proof {
                    lemma_classify_from_err(opsv, i as int);
                }
                return Err(e);
            },
        };
        let ghost prev = descs@;
        let ghost prevdv = descs.deep_view();
        let ghost ddv = d.deep_view();
        proof {
            assert(ddv =~= d@);
        }
        descs.push(d);
        i += 1;
        proof {
            assert forall|j: int|
                0 <= j < i implies #[trigger] descs.deep_view()[j] == operand_descriptors(
                opsv[j].item,
            ) by {
                assert(descs.deep_view()[j] == descs@[j].deep_view());
                if j < i - 1 {
                    assert(descs@[j] == prev[j]);
                    assert(prevdv[j] == prev[j].deep_view());
                } else {
                    assert(descs@[j].deep_view() == ddv);
                }
            }
        }
    }
    proof {
        assert(descs.deep_view().len() == opsv.len());
        lemma_classify_from_ok(opsv, descs.deep_view(), 0);
    }
    Ok(descs)
}

/// When every operand before `i` classifies and operand `i` does not,
/// classification stops exactly at operand `i`.
proof fn lemma_classify_from_err(ops: Seq<OperandLocV>, i: int)
    requires
        0 <= i < ops.len(),
        !operand_classifies(ops[i].item),
        forall|j: int| 0 <= j < i ==> operand_classifies((#[trigger] ops[j]).item),
    ensures
        classify_from(ops, 0) == Err::<Seq<Seq<Od>>, _>(classify_err(ops[i])),
    decreases i,
{
    if i > 0 {
        lemma_classify_from_err_from(ops, i, 0);
    }
}

proof fn lemma_classify_from_err_from(ops: Seq<OperandLocV>, i: int, k: int)
    requires
        0 <= k <= i < ops.len(),
        !operand_classifies(ops[i].item),
        forall|j: int| 0 <= j < i ==> operand_classifies((#[trigger] ops[j]).item),
    ensures
        classify_from(ops, k) == Err::<Seq<Seq<Od>>, _>(classify_err(ops[i])),
    decreases i - k,
{
    if k < i {
        lemma_classify_from_err_from(ops, i, k + 1);
    }
}

/// When every operand from `k` on classifies and `descs` lists their
/// descriptor sets, classification from `k` returns exactly `descs`.
proof fn lemma_classify_from_ok(ops: Seq<OperandLocV>, descs: Seq<Seq<Od>>, k: int)
    requires
        0 <= k <= ops.len(),
        descs.len() == ops.len() - k,
        forall|j: int| k <= j < ops.len() ==> operand_classifies((#[trigger] ops[j]).item),
        forall|j: int|
            k <= j < ops.len() ==> #[trigger] descs[j - k] == operand_descriptors(ops[j].item),
    ensures
        classify_from(ops, k) == Ok::<_, ErrV>(descs),
    decreases ops.len() - k,
{
    if k < ops.len() {
        let rest = descs.drop_first();
        assert forall|j: int|
            k + 1 <= j < ops.len() implies #[trigger] rest[j - (k + 1)] == operand_descriptors(
            ops[j].item,
        ) by {
            assert(rest[j - (k + 1)] == descs[j - k]);
        }
        lemma_classify_from_ok(ops, rest, k + 1);
        assert(descs[k - k] == operand_descriptors(ops[k].item));
        assert(descs =~= seq![operand_descriptors(ops[k].item)] + rest);
    } else {
        assert(descs =~= Seq::<Seq<Od>>::empty());
    }
}

// ---------------------------------------------------------------------
// Resolving one instruction.
// ---------------------------------------------------------------------
/// The size a directive occupies at the given address, or the semantic
/// error it reports. Only consulted for instructions whose operands
/// matched the directive's catalogue entry.
pub open spec fn pseudo_size_v(kind: PseudoKind, iv: InstrV, addr: usize) -> Result<usize, ErrV> {
    match kind {
        PseudoKind::Origin => match iv.item.operands[0].item {
            OperandV::Number(n) => if n >= 0 && n as int >= addr as int {
                Ok((n as int - addr as int) as usize)
            } else {
                Err(
                    ErrV {
                        msg: origin_backwards_msg(addr),
                        span: iv.item.operands[0].span,
                        line: iv.span.start.line,
                    },
                )
            },
            _ => arbitrary(),
        },
        PseudoKind::Skip => match iv.item.operands[0].item {
            OperandV::Number(n) => if n >= 0 {
                Ok(n as usize)
            } else {
                Err(
                    ErrV {
                        msg: skip_negative_msg(),
                        span: iv.item.operands[0].span,
                        line: iv.span.start.line,
                    },
                )
            },
            _ => arbitrary(),
        },
        PseudoKind::StoreDword => Ok(4),
        PseudoKind::StoreByte => Ok(1),
        PseudoKind::StoreString => match iv.item.operands[0].item {
            OperandV::String(sv) => Ok(encode_utf8(sv).len() as usize),
            _ => arbitrary(),
        },
    }
}

/// Resolution of a directive: classify the operands, look the directive
/// up, match the operands against its entry, and compute its size.
pub open spec fn resolve_pseudo_v(iv: InstrV, addr: usize) -> Result<ResolvedV, ErrV> {
    let m = iv.item.mnemonic.unwrap();
    match classify_from(iv.item.operands, 0) {
        Err(e) => Err(e),
        Ok(actual) => match pseudo_table(m) {
            None => Err(
                ErrV { msg: unrec_pseudo_msg(m), span: iv.span, line: iv.span.start.line },
            ),
            Some(p) => if operands_match(p.operands, actual) {
                match pseudo_size_v(p.kind, iv, addr) {
                    Err(e) => Err(e),
                    Ok(sz) => Ok(
                        ResolvedV { addr, instr: iv, desc: Some(ChosenV::Pseudo(p)), size: sz },
                    ),
                }
            } else {
                Err(
                    ErrV {
                        msg: bad_pseudo_operands_msg(m),
                        span: iv.span,
                        line: iv.span.start.line,
                    },
                )
            },
        },
    }
}

/// Resolution of a regular instruction: look the mnemonic up, classify
/// the operands, and take the first matching candidate encoding.
pub open spec fn resolve_regular_v(iv: InstrV, addr: usize) -> Result<ResolvedV, ErrV> {
    let m = iv.item.mnemonic.unwrap();
    match opcode_table(m) {
        None => Err(ErrV { msg: unrec_mnemonic_msg(), span: iv.span, line: iv.span.start.line }),
        Some(variants) => match classify_from(iv.item.operands, 0) {
            Err(e) => Err(e),
            Ok(actual) => match first_match(variants, actual, 0) {
                None => Err(
                    ErrV { msg: no_variant_msg(), span: iv.span, line: iv.span.start.line },
                ),
                Some(v) => Ok(
                    ResolvedV {
                        addr,
                        instr: iv,
                        desc: Some(ChosenV::Regular(v)),
                        size: v.size,
                    },
                ),
            },
        },
    }
}

/// A mnemonic that names a directive: it starts with the directive
/// marker.
pub open spec fn is_directive(m: Seq<char>) -> bool {
    m.len() > 0 && m[0] == '.'
}

/// Resolution of one instruction at the given address: a label-only line
/// has no encoding and no size, a directive follows its catalogue entry,
/// and a regular mnemonic takes the first matching candidate encoding.
pub open spec fn resolve_one(iv: InstrV, addr: usize) -> Result<ResolvedV, ErrV> {
    match iv.item.mnemonic {
        Some(m) => if is_directive(m) {
            resolve_pseudo_v(iv, addr)
        } else {
            resolve_regular_v(iv, addr)
        },
        None => Ok(ResolvedV { addr, instr: iv, desc: None, size: 0 }),
    }
}

/// Copies a descriptor list.
fn copy_descs(v: &Vec<Od>) -> (r: Vec<Od>)
    ensures
        r@ == v@,
{
    let mut r: Vec<Od> = Vec::new();
    let mut i: usize = 0;
    while i < v.len()
        invariant
            i <= v@.len(),
            r@ == v@.take(i as int),
        decreases v@.len() - i,
    {
        r.push(v[i]);
        proof {
            assert(r@ =~= v@.take(i + 1));
        }
        i += 1;
    }
    proof {
        assert(r@ =~= v@);
    }
    r
}

/// Copies a candidate encoding.
fn dup_instr_descriptor(d: &InstrDescriptor) -> (r: InstrDescriptor)
    ensures
        r.deep_view() == d.deep_view(),
{
    InstrDescriptor { opcode: d.opcode, operands: copy_descs(&d.operands), size: d.size }
}

/// When no candidate before `i` matches, the first match overall is the
/// first match from `i` on.
proof fn lemma_first_match_skip(variants: Seq<VariantV>, actual: Seq<Seq<Od>>, i: int)
    requires
        0 <= i <= variants.len(),
        forall|j: int| 0 <= j < i ==> !operands_match((#[trigger] variants[j]).operands, actual),
    ensures
        first_match(variants, actual, 0) == first_match(variants, actual, i),
    decreases i,
{
    if i > 0 {
        lemma_first_match_skip_from(variants, actual, i, 0);
    }
}

proof fn lemma_first_match_skip_from(variants: Seq<VariantV>, actual: Seq<Seq<Od>>, i: int, k: int)
    requires
        0 <= k <= i <= variants.len(),
        forall|j: int| 0 <= j < i ==> !operands_match((#[trigger] variants[j]).operands, actual),
    ensures
        first_match(variants, actual, k) == first_match(variants, actual, i),
    decreases i - k,
{
    if k < i {
        lemma_first_match_skip_from(variants, actual, i, k + 1);
    }
}

/// The size a directive occupies, or its semantic error.
fn pseudo_size_exec(
    kind: PseudoKind,
    instr: &Instr,
    addr: usize,
    orig_lines: &Vec<String>,
) -> (r: Result<usize, AsmError>)
    requires
        span_line_ok(instr.deep_view().span, orig_lines@.len() as int),
        match kind {
            PseudoKind::Origin | PseudoKind::Skip => instr.deep_view().item.operands.len() >= 1
                && (instr.deep_view().item.operands[0].item matches OperandV::Number(n)
                && fits_imm32(n as int)),
            PseudoKind::StoreString => instr.deep_view().item.operands.len() >= 1
                && (instr.deep_view().item.operands[0].item matches OperandV::String(_)),
            _ => true,
        },
    ensures
        match r {
            Ok(sz) => pseudo_size_v(kind, instr.deep_view(), addr) == Ok::<_, ErrV>(sz),
            Err(e) => {
                &&& pseudo_size_v(kind, instr.deep_view(), addr) matches Err(ev)
                &&& err_matches(e, ev, orig_lines.deep_view())
            },
        },
{
    match kind {
        PseudoKind::Origin => match &instr.item.operands[0].item {
            OperandType::Number(new_addr) => {
                proof {
                    assert(instr.deep_view().item.operands[0].item == OperandV::Number(*new_addr));
                }
                let new_addr: i64 = *new_addr;
                if new_addr >= 0 && new_addr as u64 >= addr as u64 {
                    Ok((new_addr as u64 - addr as u64) as usize)
                } else {
                    let mut msg = "address must be greater than or equal to ".to_owned();
                    let dec = crate::strutil::u64_dec_string(addr as u64);
                    msg.append(dec.as_str());
                    Err(
                        AsmError::new(
                            msg,
                            instr.item.operands[0].span,
                            orig_lines[instr.span.start.line - 1].clone(),
                        ),
                    )
                }
            },
            _ => vstd::pervasive::unreached(),
        },
        PseudoKind::Skip => match &instr.item.operands[0].item {
            OperandType::Number(num_bytes) => {
                proof {
                    assert(instr.deep_view().item.operands[0].item == OperandV::Number(*num_bytes));
                }
                let num_bytes: i64 = *num_bytes;
                if num_bytes >= 0 {
                    Ok(num_bytes as usize)
                } else {
                    Err(
                        AsmError::new(
                            "expected a positive number".to_owned(),
                            instr.item.operands[0].span,
                            orig_lines[instr.span.start.line - 1].clone(),
                        ),
                    )
                }
            },
            _ => vstd::pervasive::unreached(),
        },
        PseudoKind::StoreDword => Ok(4),
        PseudoKind::StoreByte => Ok(1),
        PseudoKind::StoreString => match &instr.item.operands[0].item {
            OperandType::String(str_val) => {
                proof {
                    assert(instr.deep_view().item.operands[0].item == OperandV::String(str_val@));
                }
                Ok(str_val.as_str().len())
            },
            _ => vstd::pervasive::unreached(),
        },
    }
}

/// Resolves a regular instruction: the first candidate encoding of its
/// mnemonic that matches its operands, with the candidate's fixed size.
fn resolve_regular_instruction(instr: &Instr, addr: usize, orig_lines: &Vec<String>) -> (r: Result<
    ResolvedInstr,
    AsmError,
>)
    requires
        instr.deep_view().item.mnemonic is Some,
        instr_shapes_supported(instr.deep_view()),
        instr_lines_ok(instr.deep_view(), orig_lines@.len() as int),
    ensures
        match r {
            Ok(ri) => resolve_regular_v(instr.deep_view(), addr) == Ok::<_, ErrV>(ri.deep_view()),
            Err(e) => {
                &&& resolve_regular_v(instr.deep_view(), addr) matches Err(ev)
                &&& err_matches(e, ev, orig_lines.deep_view())
            },
        },
{
    let ghost iv = instr.deep_view();
    let mnemonic: &String = match &instr.item.mnemonic {
        Some(m) => m,
        None => vstd::pervasive::unreached(),
    };
    proof {
        assert(iv.item.mnemonic == Some(mnemonic@));
    }

    let variants = match opcode_variants(mnemonic.as_str()) {
        Some(v) => v,
        None => {
            return Err(
                AsmError::new(
                    "unrecognized instruction mnemonic".to_owned(),
                    instr.span,
                    orig_lines[instr.span.start.line - 1].clone(),
                ),
            );
        },
    };
    let ghost variantsv = variants.deep_view();

    proof {
        assert forall|k: int| 0 <= k < instr.item.operands@.len() implies operand_lines_ok(
            (#[trigger] instr.item.operands@[k]).deep_view(),
            orig_lines@.len() as int,
        ) && operand_shape_supported(instr.item.operands@[k].deep_view().item) by {
            assert(iv.item.operands[k] == instr.item.operands@[k].deep_view());
        }
    }
    let actual = match describe_operands(&instr.item.operands, orig_lines) {
        Ok(a) => a,
        Err(e) => {
            return Err(e);
        },
    };
    let ghost actualv = actual.deep_view();

    let mut i: usize = 0;
    while i < variants.len()
        invariant
            i <= variants@.len(),
            iv == instr.deep_view(),
            iv.item.mnemonic == Some(mnemonic@),
            opcode_table(mnemonic@) == Some(variantsv),
            classify_from(iv.item.operands, 0) == Ok::<_, ErrV>(actualv),
            span_line_ok(iv.span, orig_lines@.len() as int),
            variantsv == variants.deep_view(),
            variantsv.len() == variants@.len(),
            actualv == actual.deep_view(),
            forall|j: int|
                0 <= j < i ==> !operands_match((#[trigger] variantsv[j]).operands, actualv),
        decreases variants@.len() - i,
    {
        proof {
            assert(variantsv[i as int] == variants@[i as int].deep_view());
        }
        if operands_match_exec(&variants[i].operands, &actual) {
            proof {
                lemma_first_match_skip(variantsv, actualv, i as int);
                assert(first_match(variantsv, actualv, i as int) == Some(variantsv[i as int]));
            }
            let d = dup_instr_descriptor(&variants[i]);
            let size = d.size;
            let instr_copy = instr.dup();
            proof {
                assert(instr_copy.deep_view() == iv);
            }
            let ri = ResolvedInstr {
                addr,
                instr: instr_copy,
                desc: Some(ChosenDesc::Regular(d)),
                size,
            };
            proof {
                assert(ri.deep_view().addr == addr);
                assert(ri.deep_view().instr == iv);
                assert(ri.deep_view().desc == Some(ChosenV::Regular(variantsv[i as int])));
                assert(ri.deep_view().size == variantsv[i as int].size);
                assert(ri.deep_view() =~~= ResolvedV {
                    addr,
                    instr: iv,
                    desc: Some(ChosenV::Regular(variantsv[i as int])),
                    size: variantsv[i as int].size,
                });
            }
            return Ok(ri);
        }
        i += 1;
    }
    proof {
        lemma_first_match_skip(variantsv, actualv, variantsv.len() as int);
    }
    Err(
        AsmError::new(
            "unrecognized instruction, check the operands".to_owned(),
            instr.span,
            orig_lines[instr.span.start.line - 1].clone(),
        ),
    )
}

/// Resolves a directive: matches its operands against its catalogue
/// entry and computes its size from its layout rule.
fn resolve_pseudo_instruction(instr: &Instr, addr: usize, orig_lines: &Vec<String>) -> (r: Result<
    ResolvedInstr,
    AsmError,
>)
    requires
        instr.deep_view().item.mnemonic is Some,
        instr_shapes_supported(instr.deep_view()),
        instr_lines_ok(instr.deep_view(), orig_lines@.len() as int),
        pseudo_size_arg_ok(instr.deep_view()),
    ensures
        match r {
            Ok(ri) => resolve_pseudo_v(instr.deep_view(), addr) == Ok::<_, ErrV>(ri.deep_view()),
            Err(e) => {
                &&& resolve_pseudo_v(instr.deep_view(), addr) matches Err(ev)
                &&& err_matches(e, ev, orig_lines.deep_view())
            },
        },
{
    let ghost iv = instr.deep_view();
    let mnemonic: &String = match &instr.item.mnemonic {
        Some(m) => m,
        None => vstd::pervasive::unreached(),
    };
    proof {
        assert(iv.item.mnemonic == Some(mnemonic@));
    }
    let instr_line = orig_lines[instr.span.start.line - 1].clone();

    proof {
        assert forall|k: int| 0 <= k < instr.item.operands@.len() implies operand_lines_ok(
            (#[trigger] instr.item.operands@[k]).deep_view(),
            orig_lines@.len() as int,
        ) && operand_shape_supported(instr.item.operands@[k].deep_view().item) by {
            assert(iv.item.operands[k] == instr.item.operands@[k].deep_view());
        }
    }
    let actual = match describe_operands(&instr.item.operands, orig_lines) {
        Ok(a) => a,
        Err(e) => {
            return Err(e);
        },
    };
    let ghost actualv = actual.deep_view();

    let p = match pseudo_descriptor(mnemonic.as_str()) {
        Some(p) => p,
        None => {
            return Err(
                AsmError::new(
                    crate::strutil::concat3(
                        "unrecognized pseudo-instruction '",
                        mnemonic.as_str(),
                        "'",
                    ),
                    instr.span,
                    instr_line,
                ),
            );
        },
    };

    if operands_match_exec(&p.operands, &actual) {
        proof {
            lemma_matched_pseudo_operand_shape(iv, p.deep_view(), actualv, addr);
        }
        let size = match pseudo_size_exec(p.kind, instr, addr, orig_lines) {
            Ok(sz) => sz,
            Err(e) => {
                return Err(e);
            },
        };
        Ok(ResolvedInstr { addr, instr: instr.dup(), desc: Some(ChosenDesc::Pseudo(p)), size })
    } else {
        Err(
            AsmError::new(
                crate::strutil::concat3(
                    "bad operands for pseudo-instruction '",
                    mnemonic.as_str(),
                    "'",
                ),
                instr.span,
                instr_line,
            ),
        )
    }
}

/// For a directive whose operands matched its catalogue entry, the first
/// operand has the shape the size rule reads: a number in 32-bit range
/// for `.origin` and `.skip`, a string for the string store.
proof fn lemma_matched_pseudo_operand_shape(iv: InstrV, p: PseudoV, actual: Seq<Seq<Od>>, addr: usize)
    requires
        iv.item.mnemonic is Some,
        pseudo_table(iv.item.mnemonic.unwrap()) == Some(p),
        classify_from(iv.item.operands, 0) == Ok::<_, ErrV>(actual),
        operands_match(p.operands, actual),
        pseudo_size_arg_ok(iv),
        forall|i: int|
            0 <= i < iv.item.operands.len() ==> operand_shape_supported(
                (#[trigger] iv.item.operands[i]).item,
            ),
    ensures
        match p.kind {
            PseudoKind::Origin | PseudoKind::Skip => iv.item.operands.len() == 1
                && (iv.item.operands[0].item matches OperandV::Number(n) && fits_imm32(n as int)),
            PseudoKind::StoreString => iv.item.operands.len() == 1 && (
            iv.item.operands[0].item matches OperandV::String(_)),
            _ => true,
        },
{
    let ops = iv.item.operands;
    lemma_classify_ok_pointwise(ops, actual, 0);
    match p.kind {
        PseudoKind::Origin | PseudoKind::Skip => {
            assert(p.operands =~= seq![Od::Imm32]);
            assert(ops.len() == 1);
            assert(desc_matches(Od::Imm32, actual[0]));
            assert(actual[0] == operand_descriptors(ops[0].item));
            assert(!(ops[0].item is Identifier));
            match ops[0].item {
                OperandV::Number(n) => {
                    crate::descriptor::lemma_number_descriptors_members(n as int);
                },
                _ => {
                    assert(!operand_descriptors(ops[0].item).contains(Od::Imm32)) by {
                        lemma_descriptor_sets_small(ops[0].item);
                    }
                },
            }
        },
        PseudoKind::StoreString => {
            assert(p.operands =~= seq![Od::String]);
            assert(desc_matches(Od::String, actual[0]));
            assert(actual[0] == operand_descriptors(ops[0].item));
            match ops[0].item {
                OperandV::String(_) => {},
                _ => {
                    assert(!operand_descriptors(ops[0].item).contains(Od::String)) by {
                        lemma_descriptor_sets_small(ops[0].item);
                    }
                },
            }
        },
        _ => {},
    }
}

/// A successful classification lists, from position `k` on, exactly each
/// operand's descriptor set.
proof fn lemma_classify_ok_pointwise(ops: Seq<OperandLocV>, actual: Seq<Seq<Od>>, k: int)
    requires
        0 <= k <= ops.len(),
        classify_from(ops, k) == Ok::<_, ErrV>(actual),
    ensures
        actual.len() == ops.len() - k,
        forall|j: int|
            k <= j < ops.len() ==> #[trigger] actual[j - k] == operand_descriptors(ops[j].item),
        forall|j: int| k <= j < ops.len() ==> operand_classifies((#[trigger] ops[j]).item),
    decreases ops.len() - k,
{
    if k < ops.len() {
        match classify_from(ops, k + 1) {
            Ok(t) => {
                lemma_classify_ok_pointwise(ops, t, k + 1);
                assert(actual == seq![operand_descriptors(ops[k].item)] + t);
                assert forall|j: int|
                    k <= j < ops.len() implies #[trigger] actual[j - k] == operand_descriptors(
                    ops[j].item,
                ) by {
                    if j == k {
                        assert(actual[0] == operand_descriptors(ops[k].item));
                    } else {
                        assert(actual[j - k] == t[j - k - 1]);
                        assert(t[j - (k + 1)] == operand_descriptors(ops[j].item));
                    }
                }
            },
            Err(_) => {},
        }
    }
}

/// The descriptor set of an operand that is not a number never mentions
/// the immediate widths or the string shape of another operand kind.
proof fn lemma_descriptor_sets_small(o: OperandV)
    ensures
        !(o matches OperandV::Number(_)) ==> !operand_descriptors(o).contains(Od::Imm32),
        !(o matches OperandV::String(_)) ==> !operand_descriptors(o).contains(Od::String),
{
    match o {
        OperandV::Number(n) => {
            crate::descriptor::lemma_number_descriptors_members(n as int);
        },
        _ => {},
    }
}

/// Resolves one instruction: a label-only line gets size zero and no
/// encoding; otherwise the mnemonic decides between the directive and
/// the regular path.
fn resolve_instruction(instr: &Instr, addr: usize, orig_lines: &Vec<String>) -> (r: Result<
    ResolvedInstr,
    AsmError,
>)
    requires
        instr_shapes_supported(instr.deep_view()),
        instr_lines_ok(instr.deep_view(), orig_lines@.len() as int),
        pseudo_size_arg_ok(instr.deep_view()),
    ensures
        match r {
            Ok(ri) => resolve_one(instr.deep_view(), addr) == Ok::<_, ErrV>(ri.deep_view()),
            Err(e) => {
                &&& resolve_one(instr.deep_view(), addr) matches Err(ev)
                &&& err_matches(e, ev, orig_lines.deep_view())
            },
        },
{
    match &instr.item.mnemonic {
        Some(m) => {
            if str_starts_with_char(m.as_str(), '.') {
                resolve_pseudo_instruction(instr, addr, orig_lines)
            } else {
                resolve_regular_instruction(instr, addr, orig_lines)
            }
        },
        None => Ok(
            ResolvedInstr { addr, instr: instr.dup(), desc: None, size: 0 },
        ),
    }
}

// ---------------------------------------------------------------------
// Resolving the instruction sequence.
// ---------------------------------------------------------------------
/// The largest address the running cursor can reach: it must fit both
/// the machine word and a signed 64-bit label value.
pub open spec fn max_addr() -> int {
    if usize::MAX <= i64::MAX {
        usize::MAX as int
    } else {
        i64::MAX as int
    }
}

/// Resolves the instructions from position `i` on, with the address
/// cursor at `addr`: each gets its address, encoding and size, and the
/// cursor advances by that size.
pub open spec fn resolve_from(instrs: Seq<InstrV>, i: int, addr: usize) -> Result<
    Seq<ResolvedV>,
    ErrV,
>
    decreases instrs.len() - i,
{
    if i < 0 || i >= instrs.len() {
        Ok(Seq::empty())
    } else {
        match resolve_one(instrs[i], addr) {
            Err(e) => Err(e),
            Ok(r) => if addr + r.size > max_addr() {
                Err(
                    ErrV {
                        msg: too_large_msg(),
                        span: instrs[i].span,
                        line: instrs[i].span.start.line,
                    },
                )
            } else {
                match resolve_from(instrs, i + 1, (addr + r.size) as usize) {
                    Ok(t) => Ok(seq![r] + t),
                    Err(e) => Err(e),
                }
            },
        }
    }
}

/// What the resolver requires of every instruction the parser hands
/// over: understood operand shapes, spans that index the source lines,
/// and no bare symbolic reference as the operand of `.origin` or
/// `.skip`.
pub open spec fn instrs_supported(instrs: Seq<InstrV>, n_lines: int) -> bool {
    forall|i: int|
        0 <= i < instrs.len() ==> instr_shapes_supported(#[trigger] instrs[i]) && instr_lines_ok(
            instrs[i],
            n_lines,
        ) && pseudo_size_arg_ok(instrs[i])
}

/// Resolves the whole program, threading the address cursor from 0; the
/// result equals [`resolve_from`] at position 0.
pub fn resolve_instructions(instructions: &Vec<Instr>, orig_lines: &Vec<String>) -> (r: Result<
    Vec<ResolvedInstr>,
    AsmError,
>)
    requires
        instrs_supported(instructions.deep_view(), orig_lines@.len() as int),
    ensures
        match r {
            Ok(rs) => resolve_from(instructions.deep_view(), 0, 0) == Ok::<_, ErrV>(
                rs.deep_view(),
            ),
            Err(e) => {
                &&& resolve_from(instructions.deep_view(), 0, 0) matches Err(ev)
                &&& err_matches(e, ev, orig_lines.deep_view())
            },
        },
{
    let ghost instrsv = instructions.deep_view();
    let mut resolved: Vec<ResolvedInstr> = Vec::new();
    let mut addr: usize = 0;
    let mut i: usize = 0;
    while i < instructions.len()
        invariant
            i <= instructions@.len(),
            instrsv == instructions.deep_view(),
            instrsv.len() == instructions@.len(),
            instrs_supported(instrsv, orig_lines@.len() as int),
            addr <= max_addr(),
            match resolve_from(instrsv, i as int, addr) {
                Ok(t) => resolve_from(instrsv, 0, 0) == Ok::<_, ErrV>(resolved.deep_view() + t),
                Err(e) => resolve_from(instrsv, 0, 0) == Err::<Seq<ResolvedV>, _>(e),
            },
        decreases instructions@.len() - i,
    {
        proof {
            assert(instrsv[i as int] == instructions@[i as int].deep_view());
        }
        let ri = match resolve_instruction(&instructions[i], addr, orig_lines) {
            Ok(ri) => ri,
            Err(e) => {
                return Err(e);
            },
        };
        let next = match addr.checked_add(ri.size) {
            Some(a) if a as u64 <= 0x7FFF_FFFF_FFFF_FFFF => a,
            _ => {
                proof {
                    assert(addr + ri.deep_view().size > max_addr());
                }
                return Err(
                    AsmError::new(
                        "program does not fit the address space".to_owned(),
                        instructions[i].span,
                        orig_lines[instructions[i].span.start.line - 1].clone(),
                    ),
                );
            },
        };
        let ghost prev = resolved@;
        let ghost prevdv = resolved.deep_view();
        let ghost riv = ri.deep_view();
        resolved.push(ri);
        proof {
            assert(resolved.deep_view() =~= prevdv + seq![riv]) by {
                assert forall|j: int| 0 <= j < resolved@.len() implies (#[trigger] resolved@[j]).deep_view()
                    == (prevdv + seq![riv])[j] by {
                    if j < prev.len() {
                        assert(resolved@[j] == prev[j]);
                        assert(prevdv[j] == prev[j].deep_view());
                    } else {
                        assert(resolved@[j] == resolved@.last());
                    }
                }
            }
            let t_old = resolve_from(instrsv, i as int, addr);
            let t_new = resolve_from(instrsv, i + 1, next);
            assert(t_old == match t_new {
                Ok(t) => Ok::<_, ErrV>(seq![riv] + t),
                Err(e) => Err::<Seq<ResolvedV>, _>(e),
            });
            match t_new {
                Ok(t) => {
                    assert(prevdv + (seq![riv] + t) =~= (prevdv + seq![riv]) + t);
                },
                Err(_) => {},
            }
        }
        addr = next;
        i += 1;
    }
    proof {
        assert(resolve_from(instrsv, i as int, addr) == Ok::<_, ErrV>(Seq::<ResolvedV>::empty()));
        assert(resolved.deep_view() + Seq::<ResolvedV>::empty() =~= resolved.deep_view());
    }
    Ok(resolved)
}

/// A successful single-instruction resolution places the instruction at
/// exactly the given address.
proof fn lemma_resolve_one_addr(iv: InstrV, addr: usize)
    ensures
        resolve_one(iv, addr) matches Ok(r) ==> r.addr == addr,
{
}

/// Every successful resolution from `(i, addr)` places its first
/// instruction at `addr` and each following instruction exactly one
/// size further.
proof fn lemma_resolve_from_addrs(instrs: Seq<InstrV>, i: int, addr: usize, rs: Seq<ResolvedV>)
    requires
        0 <= i <= instrs.len(),
        addr <= max_addr(),
        resolve_from(instrs, i, addr) == Ok::<_, ErrV>(rs),
    ensures
        rs.len() == instrs.len() - i,
        rs.len() > 0 ==> rs[0].addr == addr,
        forall|j: int|
            0 <= j < rs.len() - 1 ==> (#[trigger] rs[j + 1]).addr == rs[j].addr + rs[j].size,
        forall|j: int| 0 <= j < rs.len() ==> (#[trigger] rs[j]).addr + rs[j].size <= max_addr(),
    decreases instrs.len() - i,
{
    if i < instrs.len() {
        match resolve_one(instrs[i], addr) {
            Ok(r) => {
                lemma_resolve_one_addr(instrs[i], addr);
                if addr + r.size <= max_addr() {
                    let next = (addr + r.size) as usize;
                    match resolve_from(instrs, i + 1, next) {
                        Ok(t) => {
                            lemma_resolve_from_addrs(instrs, i + 1, next, t);
                            assert(rs == seq![r] + t);
                            assert forall|j: int|
                                0 <= j < rs.len() - 1 implies (#[trigger] rs[j + 1]).addr
                                == rs[j].addr + rs[j].size by {
                                if j == 0 {
                                    if t.len() > 0 {
                                        assert(rs[1] == t[0]);
                                    }
                                } else {
                                    assert(rs[j] == t[j - 1]);
                                    assert(rs[j + 1] == t[j]);
                                    assert(t[(j - 1) + 1] == t[j - 1 + 1]);
                                }
                            }
                            assert forall|j: int|
                                0 <= j < rs.len() implies (#[trigger] rs[j]).addr + rs[j].size
                                <= max_addr() by {
                                if j > 0 {
                                    assert(rs[j] == t[j - 1]);
                                }
                            }
                        },
                        Err(_) => {},
                    }
                }
            },
            Err(_) => {},
        }
    }
}

/// Address monotonicity: in a resolved program the first instruction
/// sits at address 0, and every instruction after it sits exactly at the
/// previous instruction's address plus the previous instruction's size.
/// No instruction has negative size, and no address leaves the address
/// space.
pub proof fn lemma_address_monotonicity(instrs: Seq<InstrV>, rs: Seq<ResolvedV>)
    requires
        resolve_from(instrs, 0, 0) == Ok::<_, ErrV>(rs),
    ensures
        rs.len() == instrs.len(),
        rs.len() > 0 ==> rs[0].addr == 0,
        forall|j: int|
            0 <= j < rs.len() - 1 ==> (#[trigger] rs[j + 1]).addr == rs[j].addr + rs[j].size,
        forall|j: int| 0 <= j < rs.len() ==> (#[trigger] rs[j]).size >= 0,
        forall|j: int| 0 <= j < rs.len() ==> (#[trigger] rs[j]).addr + rs[j].size <= max_addr(),
{
    lemma_resolve_from_addrs(instrs, 0, 0, rs);
}

// ---------------------------------------------------------------------
// Label resolution.
// ---------------------------------------------------------------------
/// The label names declared from instruction `i` on, each paired with
/// its instruction's address, in program order.
pub open spec fn labels_of(rs: Seq<ResolvedV>, i: int) -> Seq<(Seq<char>, usize)>
    decreases rs.len() - i,
{
    if i < 0 || i >= rs.len() {
        Seq::empty()
    } else {
        let rest = labels_of(rs, i + 1);
        match rs[i].instr.item.label {
            Some(l) => seq![(l, rs[i].addr)] + rest,
            None => rest,
        }
    }
}

/// Looks a name up in an association list where a later entry overrides
/// an earlier one with the same name.
pub open spec fn lookup_last(m: Seq<(Seq<char>, usize)>, name: Seq<char>) -> Option<usize>
    decreases m.len(),
{
    if m.len() == 0 {
        None
    } else if m.last().0 == name {
        Some(m.last().1)
    } else {
        lookup_last(m.drop_last(), name)
    }
}

/// The address of a label name in the resolved program: the address of
/// the last instruction that declares it, if any does.
pub open spec fn label_addr(rs: Seq<ResolvedV>, name: Seq<char>) -> Option<usize> {
    lookup_last(labels_of(rs, 0), name)
}

/// Rewrites one operand: a symbolic reference becomes the literal
/// address of its label, under the operand's own span; anything else is
/// kept as it is. A reference to a label no instruction declares is the
/// reference error.
pub open spec fn subst_operand(all: Seq<ResolvedV>, o: OperandLocV) -> Result<OperandLocV, ErrV> {
    match o.item {
        OperandV::Identifier(name) => match label_addr(all, name) {
            Some(a) => Ok(LocatedV { item: OperandV::Number(a as i64), span: o.span }),
            None => Err(
                ErrV {
                    msg: unresolved_label_msg(name),
                    span: o.span,
                    line: o.span.start.line,
                },
            ),
        },
        _ => Ok(o),
    }
}

/// Rewrites the operands from position `k` on; the first unresolved
/// reference wins.
pub open spec fn subst_operands(all: Seq<ResolvedV>, ops: Seq<OperandLocV>, k: int) -> Result<
    Seq<OperandLocV>,
    ErrV,
>
    decreases ops.len() - k,
{
    if k < 0 || k >= ops.len() {
        Ok(Seq::empty())
    } else {
        match subst_operand(all, ops[k]) {
            Err(e) => Err(e),
            Ok(o) => match subst_operands(all, ops, k + 1) {
                Ok(t) => Ok(seq![o] + t),
                Err(e) => Err(e),
            },
        }
    }
}

/// Rewrites every operand of one resolved instruction; address, label,
/// mnemonic, spans, encoding and size stay as they are.
pub open spec fn subst_instr(all: Seq<ResolvedV>, r: ResolvedV) -> Result<ResolvedV, ErrV> {
    match subst_operands(all, r.instr.item.operands, 0) {
        Ok(ops) => Ok(
            ResolvedV {
                addr: r.addr,
                instr: LocatedV {
                    item: InstrItemV {
                        label: r.instr.item.label,
                        mnemonic: r.instr.item.mnemonic,
                        operands: ops,
                    },
                    span: r.instr.span,
                },
                desc: r.desc,
                size: r.size,
            },
        ),
        Err(e) => Err(e),
    }
}

/// Rewrites the instructions from position `i` on against the label
/// addresses of the whole program.
pub open spec fn resolve_labels_from(all: Seq<ResolvedV>, i: int) -> Result<Seq<ResolvedV>, ErrV>
    decreases all.len() - i,
{
    if i < 0 || i >= all.len() {
        Ok(Seq::empty())
    } else {
        match subst_instr(all, all[i]) {
            Err(e) => Err(e),
            Ok(r) => match resolve_labels_from(all, i + 1) {
                Ok(t) => Ok(seq![r] + t),
                Err(e) => Err(e),
            },
        }
    }
}

/// Copies a directive catalogue entry.
fn dup_pseudo_descriptor(p: &PseudoInstrDescriptor) -> (r: PseudoInstrDescriptor)
    ensures
        r.deep_view() == p.deep_view(),
{
    PseudoInstrDescriptor { operands: copy_descs(&p.operands), kind: p.kind }
}

/// Copies a chosen encoding.
fn dup_chosen(d: &ChosenDesc) -> (r: ChosenDesc)
    ensures
        r.deep_view() == d.deep_view(),
{
    match d {
        ChosenDesc::Regular(v) => ChosenDesc::Regular(dup_instr_descriptor(v)),
        ChosenDesc::Pseudo(p) => ChosenDesc::Pseudo(dup_pseudo_descriptor(p)),
    }
}

/// Copies an optional name.
fn clone_opt_string(o: &Option<String>) -> (r: Option<String>)
    ensures
        r.deep_view() == o.deep_view(),
{
    match o {
        Some(s) => Some(s.clone()),
        None => None,
    }
}

/// Collects every label of the resolved program, in program order, each
/// with its instruction's address.
fn collect_labels(resolved: &Vec<ResolvedInstr>) -> (r: Vec<(String, usize)>)
    ensures
        r.deep_view() == labels_of(resolved.deep_view(), 0),
{
    let ghost rsv = resolved.deep_view();
    let mut map: Vec<(String, usize)> = Vec::new();
    let mut i: usize = 0;
    while i < resolved.len()
        invariant
            i <= resolved@.len(),
            rsv == resolved.deep_view(),
            rsv.len() == resolved@.len(),
            labels_of(rsv, 0) == map.deep_view() + labels_of(rsv, i as int),
        decreases resolved@.len() - i,
    {
        proof {
            assert(rsv[i as int] == resolved@[i as int].deep_view());
        }
        let ghost prevdv = map.deep_view();
        match &resolved[i].instr.item.label {
            Some(l) => {
                let entry = (l.clone(), resolved[i].addr);
                let ghost entryv = entry.deep_view();
                map.push(entry);
                proof {
                    assert(map.deep_view() =~= prevdv + seq![entryv]) by {
                        assert forall|j: int|
                            0 <= j < map@.len() implies (#[trigger] map@[j]).deep_view() == (prevdv
                            + seq![entryv])[j] by {
                            if j < prevdv.len() {
                                assert(map@[j] == map@.take(map@.len() - 1)[j]);
                            } else {
                                assert(map@[j] == map@.last());
                            }
                        }
                    }
                    assert(labels_of(rsv, i as int) == seq![entryv] + labels_of(rsv, i + 1));
                    assert(prevdv + (seq![entryv] + labels_of(rsv, i + 1)) =~= (prevdv + seq![
                        entryv,
                    ]) + labels_of(rsv, i + 1));
                }
            },
            None => {
                proof {
                    assert(labels_of(rsv, i as int) == labels_of(rsv, i + 1));
                }
            },
        }
        i += 1;
    }
    proof {
        assert(map.deep_view() + labels_of(rsv, i as int) =~= map.deep_view());
    }
    map
}

/// Looks a name up in the collected label list; a later declaration of
/// the same name wins.
fn lookup_label(map: &Vec<(String, usize)>, name: &str) -> (r: Option<usize>)
    ensures
        r == lookup_last(map.deep_view(), name@),
{
    let ghost mdv = map.deep_view();
    proof {
        assert(mdv.take(mdv.len() as int) =~= mdv);
    }
    let mut j: usize = map.len();
    while j > 0
        invariant
            j <= map@.len(),
            mdv == map.deep_view(),
            mdv.len() == map@.len(),
            lookup_last(mdv, name@) == lookup_last(mdv.take(j as int), name@),
        decreases j,
    {
        proof {
            assert(mdv[j - 1] == map@[j - 1].deep_view());
            assert(mdv.take(j as int).last() == mdv[j - 1]);
            assert(mdv.take(j as int).drop_last() =~= mdv.take(j - 1));
        }
        if crate::strutil::str_eq(map[j - 1].0.as_str(), name) {
            return Some(map[j - 1].1);
        }
        j -= 1;
    }
    proof {
        assert(mdv.take(0) =~= Seq::<(Seq<char>, usize)>::empty());
    }
    None
}

/// Every value an association-list lookup can return obeys a bound that
/// every entry obeys.
proof fn lemma_lookup_last_bound(m: Seq<(Seq<char>, usize)>, name: Seq<char>, bound: int)
    requires
        forall|k: int| 0 <= k < m.len() ==> (#[trigger] m[k]).1 <= bound,
        lookup_last(m, name) is Some,
    ensures
        lookup_last(m, name).unwrap() <= bound,
    decreases m.len(),
{
    if m.len() > 0 && !(m.last().0 == name) {
        assert forall|k: int| 0 <= k < m.drop_last().len() implies (#[trigger] m.drop_last()[k]).1
            <= bound by {
            assert(m.drop_last()[k] == m[k]);
        }
        lemma_lookup_last_bound(m.drop_last(), name, bound);
    }
}

/// Every address in the collected label list is the address of some
/// resolved instruction, so every bound on the addresses carries over.
proof fn lemma_labels_of_bound(rs: Seq<ResolvedV>, i: int, bound: int)
    requires
        forall|j: int| 0 <= j < rs.len() ==> (#[trigger] rs[j]).addr <= bound,
    ensures
        forall|k: int|
            0 <= k < labels_of(rs, i).len() ==> (#[trigger] labels_of(rs, i)[k]).1 <= bound,
    decreases rs.len() - i,
{
    if 0 <= i < rs.len() {
        lemma_labels_of_bound(rs, i + 1, bound);
        let rest = labels_of(rs, i + 1);
        match rs[i].instr.item.label {
            Some(l) => {
                assert forall|k: int|
                    0 <= k < labels_of(rs, i).len() implies (#[trigger] labels_of(rs, i)[k]).1
                    <= bound by {
                    if k > 0 {
                        assert(labels_of(rs, i)[k] == rest[k - 1]);
                    }
                }
            },
            None => {},
        }
    }
}

/// Spans of every resolved instruction index the original source lines.
pub open spec fn rs_lines_ok(rs: Seq<ResolvedV>, n_lines: int) -> bool {
    forall|i: int| 0 <= i < rs.len() ==> instr_lines_ok((#[trigger] rs[i]).instr, n_lines)
}

/// Every resolved address fits a signed 64-bit label value.
pub open spec fn rs_addrs_fit(rs: Seq<ResolvedV>) -> bool {
    forall|i: int| 0 <= i < rs.len() ==> (#[trigger] rs[i]).addr <= i64::MAX
}

/// Rewrites every symbolic reference operand in the program into the
/// literal address of its label, producing a new resolved program; the
/// result equals [`resolve_labels_from`] at position 0. A reference to a
/// label no instruction declares is the reference error, and nothing is
/// produced.
pub fn resolve_labels(resolved: &Vec<ResolvedInstr>, orig_lines: &Vec<String>) -> (r: Result<
    Vec<ResolvedInstr>,
    AsmError,
>)
    requires
        rs_lines_ok(resolved.deep_view(), orig_lines@.len() as int),
        rs_addrs_fit(resolved.deep_view()),
    ensures
        match r {
            Ok(out) => resolve_labels_from(resolved.deep_view(), 0) == Ok::<_, ErrV>(
                out.deep_view(),
            ),
            Err(e) => {
                &&& resolve_labels_from(resolved.deep_view(), 0) matches Err(ev)
                &&& err_matches(e, ev, orig_lines.deep_view())
            },
        },
{
    let ghost allv = resolved.deep_view();
    let map = collect_labels(resolved);
    let ghost mdv = map.deep_view();

    let mut out: Vec<ResolvedInstr> = Vec::new();
    let mut i: usize = 0;
    while i < resolved.len()
        invariant
            i <= resolved@.len(),
            allv == resolved.deep_view(),
            allv.len() == resolved@.len(),
            rs_lines_ok(allv, orig_lines@.len() as int),
            rs_addrs_fit(allv),
            mdv == map.deep_view(),
            mdv == labels_of(allv, 0),
            match resolve_labels_from(allv, i as int) {
                Ok(t) => resolve_labels_from(allv, 0) == Ok::<_, ErrV>(out.deep_view() + t),
                Err(e) => resolve_labels_from(allv, 0) == Err::<Seq<ResolvedV>, _>(e),
            },
        decreases resolved@.len() - i,
    {
        proof {
            assert(allv[i as int] == resolved@[i as int].deep_view());
        }
        let r = &resolved[i];
        let ghost rv = allv[i as int];
        let ghost opsv = rv.instr.item.operands;

        let mut new_ops: Vec<Operand> = Vec::new();
        let mut k: usize = 0;
        while k < r.instr.item.operands.len()
            invariant
                k <= r.instr.item.operands@.len(),
                allv == resolved.deep_view(),
                allv.len() == resolved@.len(),
                match resolve_labels_from(allv, i as int) {
                    Ok(t) => resolve_labels_from(allv, 0) == Ok::<_, ErrV>(out.deep_view() + t),
                    Err(e) => resolve_labels_from(allv, 0) == Err::<Seq<ResolvedV>, _>(e),
                },
                rv == resolved@[i as int].deep_view(),
                rv == allv[i as int],
                i < resolved@.len(),
                r == &resolved@[i as int],
                opsv == rv.instr.item.operands,
                opsv.len() == r.instr.item.operands@.len(),
                rs_lines_ok(allv, orig_lines@.len() as int),
                rs_addrs_fit(allv),
                mdv == map.deep_view(),
                mdv == labels_of(allv, 0),
                match subst_operands(allv, opsv, k as int) {
                    Ok(t) => subst_operands(allv, opsv, 0) == Ok::<_, ErrV>(
                        new_ops.deep_view() + t,
                    ),
                    Err(e) => subst_operands(allv, opsv, 0) == Err::<Seq<OperandLocV>, _>(e),
                },
            decreases r.instr.item.operands@.len() - k,
        {
            proof {
                assert(opsv[k as int] == r.instr.item.operands@[k as int].deep_view());
                assert(instr_lines_ok((allv[i as int]).instr, orig_lines@.len() as int));
            }
            let op = &r.instr.item.operands[k];
            let new_op: Operand = match &op.item {
                OperandType::Identifier(name) => {
                    proof {
                        assert(opsv[k as int].item == OperandV::Identifier(name@));
                    }
                    match lookup_label(&map, name.as_str()) {
                        Some(a) => {
                            proof {
                                lemma_labels_of_bound(allv, 0, i64::MAX as int);
                                lemma_lookup_last_bound(mdv, name@, i64::MAX as int);
                            }
                            Located { item: OperandType::Number(a as i64), span: op.span }
                        },
                        None => {
                            proof {
                                assert(operand_lines_ok(
                                    rv.instr.item.operands[k as int],
                                    orig_lines@.len() as int,
                                ));
                                let ev = ErrV {
                                    msg: unresolved_label_msg(name@),
                                    span: opsv[k as int].span,
                                    line: opsv[k as int].span.start.line,
                                };
                                assert(subst_operand(allv, opsv[k as int]) == Err::<
                                    OperandLocV,
                                    ErrV,
                                >(ev));
                                assert(subst_operands(allv, opsv, k as int) == Err::<
                                    Seq<OperandLocV>,
                                    ErrV,
                                >(ev));
                                assert(subst_instr(allv, rv) == Err::<ResolvedV, ErrV>(ev));
                                assert(resolve_labels_from(allv, i as int) == Err::<
                                    Seq<ResolvedV>,
                                    ErrV,
                                >(ev));
                                assert(orig_lines.deep_view()[opsv[k as int].span.start.line - 1]
                                    == orig_lines@[opsv[k as int].span.start.line - 1]@);
                            }
                            return Err(
                                AsmError::new(
                                    crate::strutil::concat3(
                                        "unresolved label '",
                                        name.as_str(),
                                        "'",
                                    ),
                                    op.span,
                                    orig_lines[op.span.start.line - 1].clone(),
                                ),
                            );
                        },
                    }
                },
                _ => op.dup(),
            };
            let ghost prevdv = new_ops.deep_view();
            let ghost nov = new_op.deep_view();
            proof {
                assert(subst_operand(allv, opsv[k as int]) == Ok::<_, ErrV>(nov));
            }
            new_ops.push(new_op);
            proof {
                assert(new_ops.deep_view() =~= prevdv + seq![nov]) by {
                    assert forall|j: int|
                        0 <= j < new_ops@.len() implies (#[trigger] new_ops@[j]).deep_view() == (
                    prevdv + seq![nov])[j] by {
                        if j < prevdv.len() {
                            assert(new_ops@[j] == new_ops@.take(new_ops@.len() - 1)[j]);
                        } else {
                            assert(new_ops@[j] == new_ops@.last());
                        }
                    }
                }
                match subst_operands(allv, opsv, k + 1) {
                    Ok(t) => {
                        assert(prevdv + (seq![nov] + t) =~= (prevdv + seq![nov]) + t);
                    },
                    Err(_) => {},
                }
            }
            k += 1;
        }

        let new_instr = Located {
            item: crate::parser::InstrItem {
                label: clone_opt_string(&r.instr.item.label),
                mnemonic: clone_opt_string(&r.instr.item.mnemonic),
                operands: new_ops,
            },
            span: r.instr.span,
        };
        let new_desc: Option<ChosenDesc> = match &r.desc {
            Some(d) => Some(dup_chosen(d)),
            None => None,
        };
        let ri = ResolvedInstr { addr: r.addr, instr: new_instr, desc: new_desc, size: r.size };
        proof {
            assert(subst_operands(allv, opsv, opsv.len() as int) == Ok::<_, ErrV>(
                Seq::<OperandLocV>::empty(),
            ));
            assert(ri.deep_view().instr.item.operands + Seq::<OperandLocV>::empty()
                =~= ri.deep_view().instr.item.operands);
            assert(subst_instr(allv, rv) == Ok::<_, ErrV>(ri.deep_view())) by {
                assert(ri.deep_view() =~~= match subst_instr(allv, rv) {
                    Ok(x) => x,
                    Err(_) => arbitrary(),
                });
            }
        }
        let ghost prevdv = out.deep_view();
        let ghost riv = ri.deep_view();
        out.push(ri);
        proof {
            assert(out.deep_view() =~= prevdv + seq![riv]) by {
                assert forall|j: int|
                    0 <= j < out@.len() implies (#[trigger] out@[j]).deep_view() == (prevdv + seq![
                    riv,
                ])[j] by {
                    if j < prevdv.len() {
                        assert(out@[j] == out@.take(out@.len() - 1)[j]);
                    } else {
                        assert(out@[j] == out@.last());
                    }
                }
            }
            match resolve_labels_from(allv, i + 1) {
                Ok(t) => {
                    assert(prevdv + (seq![riv] + t) =~= (prevdv + seq![riv]) + t);
                },
                Err(_) => {},
            }
        }
        i += 1;
    }
    proof {
        assert(resolve_labels_from(allv, i as int) == Ok::<_, ErrV>(Seq::<ResolvedV>::empty()));
        assert(out.deep_view() + Seq::<ResolvedV>::empty() =~= out.deep_view());
    }
    Ok(out)
}

// ---------------------------------------------------------------------
// Re-validating chosen encodings against resolved values.
// ---------------------------------------------------------------------
/// The required operand descriptors of a chosen encoding.
pub open spec fn chosen_operands(c: ChosenV) -> Seq<Od> {
    match c {
        ChosenV::Regular(v) => v.operands,
        ChosenV::Pseudo(p) => p.operands,
    }
}

/// Checks one resolved instruction after label resolution: its operands,
/// now all literal, must still classify and still match the encoding
/// that was chosen while symbolic references were relaxed. A reference
/// that resolved to a value too wide for the chosen encoding fails here
/// instead of being silently truncated at emission.
pub open spec fn revalidate_one(r: ResolvedV) -> Option<ErrV> {
    match r.desc {
        None => None,
        Some(c) => match classify_from(r.instr.item.operands, 0) {
            Err(e) => Some(e),
            Ok(actual) => if operands_match(chosen_operands(c), actual) {
                None
            } else {
                Some(
                    ErrV {
                        msg: encoding_mismatch_msg(),
                        span: r.instr.span,
                        line: r.instr.span.start.line,
                    },
                )
            },
        },
    }
}

/// The first re-validation failure from position `i` on, if any.
pub open spec fn revalidate_from(rs: Seq<ResolvedV>, i: int) -> Option<ErrV>
    decreases rs.len() - i,
{
    if i < 0 || i >= rs.len() {
        None
    } else {
        match revalidate_one(rs[i]) {
            Some(e) => Some(e),
            None => revalidate_from(rs, i + 1),
        }
    }
}

/// Every operand shape the classifier understands.
pub open spec fn rs_shapes_ok(rs: Seq<ResolvedV>) -> bool {
    forall|i: int| 0 <= i < rs.len() ==> instr_shapes_supported((#[trigger] rs[i]).instr)
}

/// Re-validates the whole program; the result mirrors
/// [`revalidate_from`] at position 0.
pub fn revalidate(resolved: &Vec<ResolvedInstr>, orig_lines: &Vec<String>) -> (r: Result<
    (),
    AsmError,
>)
    requires
        rs_lines_ok(resolved.deep_view(), orig_lines@.len() as int),
        rs_shapes_ok(resolved.deep_view()),
    ensures
        match r {
            Ok(_) => revalidate_from(resolved.deep_view(), 0) is None,
            Err(e) => {
                &&& revalidate_from(resolved.deep_view(), 0) matches Some(ev)
                &&& err_matches(e, ev, orig_lines.deep_view())
            },
        },
{
    let ghost rsv = resolved.deep_view();
    let mut i: usize = 0;
    while i < resolved.len()
        invariant
            i <= resolved@.len(),
            rsv == resolved.deep_view(),
            rsv.len() == resolved@.len(),
            rs_lines_ok(rsv, orig_lines@.len() as int),
            rs_shapes_ok(rsv),
            revalidate_from(rsv, 0) == revalidate_from(rsv, i as int),
        decreases resolved@.len() - i,
    {
        proof {
            assert(rsv[i as int] == resolved@[i as int].deep_view());
        }
        let r = &resolved[i];
        let ghost rv = rsv[i as int];
        match &r.desc {
            None => {},
            Some(c) => {
                proof {
                    assert(instr_shapes_supported(rv.instr));
                    assert(instr_lines_ok(rv.instr, orig_lines@.len() as int));
                    assert forall|kk: int|
                        0 <= kk < r.instr.item.operands@.len() implies operand_lines_ok(
                        (#[trigger] r.instr.item.operands@[kk]).deep_view(),
                        orig_lines@.len() as int,
                    ) && operand_shape_supported(
                        r.instr.item.operands@[kk].deep_view().item,
                    ) by {
                        assert(rv.instr.item.operands[kk]
                            == (r.instr.item.operands@[kk]).deep_view());
                    }
                }
                let actual = match describe_operands(&r.instr.item.operands, orig_lines) {
                    Ok(a) => a,
                    Err(e) => {
                        return Err(e);
                    },
                };
                let required: &Vec<Od> = match c {
                    ChosenDesc::Regular(d) => &d.operands,
                    ChosenDesc::Pseudo(p) => &p.operands,
                };
                if !operands_match_exec(required, &actual) {
                    return Err(
                        AsmError::new(
                            "resolved operands do not fit the selected encoding".to_owned(),
                            r.instr.span,
                            orig_lines[r.instr.span.start.line - 1].clone(),
                        ),
                    );
                }
            },
        }
        i += 1;
    }
    Ok(())
}

// ---------------------------------------------------------------------
// Byte emission.
// ---------------------------------------------------------------------
/// The encoding of a register name, case-insensitively: `r0`..`r7` map
/// to `0x00`..`0x07` and `sp` maps to `0x08`; any other name has none.
pub open spec fn reg_code(name: Seq<char>) -> Option<u8> {
    if name.len() == 2 {
        if name[0] == 'r' || name[0] == 'R' {
            if name[1] == '0' {
                Some(0x00u8)
            } else if name[1] == '1' {
                Some(0x01u8)
            } else if name[1] == '2' {
                Some(0x02u8)
            } else if name[1] == '3' {
                Some(0x03u8)
            } else if name[1] == '4' {
                Some(0x04u8)
            } else if name[1] == '5' {
                Some(0x05u8)
            } else if name[1] == '6' {
                Some(0x06u8)
            } else if name[1] == '7' {
                Some(0x07u8)
            } else {
                None
            }
        } else if (name[0] == 's' || name[0] == 'S') && (name[1] == 'p' || name[1] == 'P') {
            Some(0x08u8)
        } else {
            None
        }
    } else {
        None
    }
}

/// The low byte of a value, two's complement.
pub open spec fn low_byte(n: i64) -> u8 {
    (n & 0xFF) as u8
}

/// The low 32 bits of a value, two's complement.
pub open spec fn to_u32(n: i64) -> u32 {
    (n & 0xFFFF_FFFF) as u32
}

/// The four bytes of a 32-bit value, little-endian.
pub open spec fn dword_le_bytes(w: u32) -> Seq<u8> {
    seq![
        (w & 0xFF) as u8,
        ((w >> 8) & 0xFF) as u8,
        ((w >> 16) & 0xFF) as u8,
        ((w >> 24) & 0xFF) as u8,
    ]
}

/// The byte of a memory-access offset: the sign flips when the source
/// operator was `-`.
pub open spec fn offset_byte(op: char, n: i64) -> u8 {
    if op == '-' {
        low_byte((0 - n as int) as i64)
    } else {
        low_byte(n)
    }
}

/// The shapes an operand must have so that emission under the given
/// required descriptor cannot fail for a reason other than an unknown
/// register name or an unimplemented encoding.
pub open spec fn operand_emit_compat(required: Od, o: OperandV) -> bool {
    match required {
        Od::Register => o matches OperandV::Register(_),
        Od::Imm5 | Od::Imm8 | Od::Imm32 => o matches OperandV::Number(_),
        Od::MemoryRegNoOffset => o matches OperandV::MemoryNoMath(inner) && (
        *inner matches OperandV::Register(_)),
        Od::MemoryRegOffset8 => o matches OperandV::MemoryWithMath { lhs, rhs, op } && (
        lhs.item matches OperandV::Register(_)) && (rhs.item matches OperandV::Number(n)
            && fits_imm8(n as int)) && (op == '+' || op == '-'),
        Od::MemoryRegOffsetReg => o matches OperandV::MemoryWithMath { lhs, rhs, op } && (
        lhs.item matches OperandV::Register(_)) && (rhs.item matches OperandV::Register(_)) && op
            == '+',
        _ => true,
    }
}

/// The bytes of one operand under the descriptor required at its
/// position, or the error emission reports there.
pub open spec fn operand_bytes(required: Od, o: OperandLocV) -> Result<Seq<u8>, ErrV> {
    match required {
        Od::Register => match o.item {
            OperandV::Register(name) => match reg_code(name) {
                Some(c) => Ok(seq![c]),
                None => Err(
                    ErrV {
                        msg: unrec_register_msg(),
                        span: o.span,
                        line: o.span.start.line,
                    },
                ),
            },
            _ => arbitrary(),
        },
        Od::Imm5 | Od::Imm8 => match o.item {
            OperandV::Number(n) => Ok(seq![low_byte(n)]),
            _ => arbitrary(),
        },
        Od::Imm32 => match o.item {
            OperandV::Number(n) => Ok(dword_le_bytes(to_u32(n))),
            _ => arbitrary(),
        },
        Od::MemoryRegNoOffset => match o.item {
            OperandV::MemoryNoMath(inner) => match *inner {
                OperandV::Register(name) => match reg_code(name) {
                    Some(c) => Ok(seq![c]),
                    None => Err(
                        ErrV {
                            msg: unrec_register_msg(),
                            span: o.span,
                            line: o.span.start.line,
                        },
                    ),
                },
                _ => arbitrary(),
            },
            _ => arbitrary(),
        },
        Od::MemoryRegOffset8 => match o.item {
            OperandV::MemoryWithMath { lhs, rhs, op } => match lhs.item {
                OperandV::Register(lname) => match reg_code(lname) {
                    None => Err(
                        ErrV {
                            msg: unrec_register_msg(),
                            span: lhs.span,
                            line: lhs.span.start.line,
                        },
                    ),
                    Some(lc) => match rhs.item {
                        OperandV::Number(n) => Ok(seq![lc, offset_byte(op, n)]),
                        _ => arbitrary(),
                    },
                },
                _ => arbitrary(),
            },
            _ => arbitrary(),
        },
        Od::MemoryRegOffsetReg => match o.item {
            OperandV::MemoryWithMath { lhs, rhs, op } => match lhs.item {
                OperandV::Register(lname) => match reg_code(lname) {
                    None => Err(
                        ErrV {
                            msg: unrec_register_msg(),
                            span: lhs.span,
                            line: lhs.span.start.line,
                        },
                    ),
                    Some(lc) => match rhs.item {
                        OperandV::Register(rname) => match reg_code(rname) {
                            None => Err(
                                ErrV {
                                    msg: unrec_register_msg(),
                                    span: rhs.span,
                                    line: rhs.span.start.line,
                                },
                            ),
                            Some(rc) => Ok(seq![lc, rc]),
                        },
                        _ => arbitrary(),
                    },
                },
                _ => arbitrary(),
            },
            _ => arbitrary(),
        },
        Od::MemoryImm32 | Od::MemoryRegOffset32 | Od::Label | Od::String => Err(
            ErrV {
                msg: unsupported_encoding_msg(),
                span: o.span,
                line: o.span.start.line,
            },
        ),
    }
}

/// The operand bytes of a regular instruction from position `k` on,
/// concatenated in order; the first failure wins.
pub open spec fn regular_operand_bytes(vops: Seq<Od>, ops: Seq<OperandLocV>, k: int) -> Result<
    Seq<u8>,
    ErrV,
>
    decreases vops.len() - k,
{
    if k < 0 || k >= vops.len() {
        Ok(Seq::empty())
    } else {
        match operand_bytes(vops[k], ops[k]) {
            Err(e) => Err(e),
            Ok(b) => match regular_operand_bytes(vops, ops, k + 1) {
                Ok(t) => Ok(b + t),
                Err(e) => Err(e),
            },
        }
    }
}

/// The payload bytes of a directive: zero padding for `.origin` and
/// `.skip` (exactly the size computed at resolution), a little-endian
/// dword or a single byte for the literal stores, and the raw UTF-8
/// bytes for the string store.
pub open spec fn pseudo_bytes(kind: PseudoKind, r: ResolvedV) -> Result<Seq<u8>, ErrV> {
    match kind {
        PseudoKind::Origin | PseudoKind::Skip => Ok(Seq::new(r.size as nat, |i: int| 0u8)),
        PseudoKind::StoreDword => match r.instr.item.operands[0].item {
            OperandV::Number(n) => Ok(dword_le_bytes(to_u32(n))),
            _ => arbitrary(),
        },
        PseudoKind::StoreByte => match r.instr.item.operands[0].item {
            OperandV::Number(n) => Ok(seq![low_byte(n)]),
            _ => arbitrary(),
        },
        PseudoKind::StoreString => match r.instr.item.operands[0].item {
            OperandV::String(sv) => Ok(encode_utf8(sv)),
            _ => arbitrary(),
        },
    }
}

/// The bytes of one resolved instruction: nothing for a bare label line,
/// the opcode byte followed by the operand bytes for a regular
/// instruction, and the directive payload for a directive.
pub open spec fn instr_bytes(r: ResolvedV) -> Result<Seq<u8>, ErrV> {
    match r.desc {
        None => Ok(Seq::empty()),
        Some(ChosenV::Regular(v)) => match regular_operand_bytes(
            v.operands,
            r.instr.item.operands,
            0,
        ) {
            Ok(b) => Ok(seq![v.opcode] + b),
            Err(e) => Err(e),
        },
        Some(ChosenV::Pseudo(p)) => pseudo_bytes(p.kind, r),
    }
}

/// The image bytes of the instructions from position `i` on, in program
/// order; the first failure wins.
pub open spec fn emit_from(rs: Seq<ResolvedV>, i: int) -> Result<Seq<u8>, ErrV>
    decreases rs.len() - i,
{
    if i < 0 || i >= rs.len() {
        Ok(Seq::empty())
    } else {
        match instr_bytes(rs[i]) {
            Err(e) => Err(e),
            Ok(b) => match emit_from(rs, i + 1) {
                Ok(t) => Ok(b + t),
                Err(e) => Err(e),
            },
        }
    }
}

/// The low byte of a value.
fn low_byte_exec(n: i64) -> (r: u8)
    ensures
        r == low_byte(n),
{
    proof {
        assert(0 <= n & 0xFF < 256) by (bit_vector);
    }
    (n & 0xFF) as u8
}

/// The low 32 bits of a value.
fn to_u32_exec(n: i64) -> (r: u32)
    ensures
        r == to_u32(n),
{
    proof {
        assert(0 <= n & 0xFFFF_FFFF <= 0xFFFF_FFFFi64) by (bit_vector);
    }
    (n & 0xFFFF_FFFF) as u32
}

/// The four little-endian bytes of a 32-bit value.
pub fn dword_to_bytes(dword: u32) -> (r: Vec<u8>)
    ensures
        r@ == dword_le_bytes(dword),
{
    proof {
        assert((dword & 0xFF) < 256 && ((dword >> 8) & 0xFF) < 256 && ((dword >> 16) & 0xFF) < 256
            && ((dword >> 24) & 0xFF) < 256) by (bit_vector);
    }
    let r = vec![
        (dword & 0xFF) as u8,
        ((dword >> 8) & 0xFF) as u8,
        ((dword >> 16) & 0xFF) as u8,
        ((dword >> 24) & 0xFF) as u8,
    ];
    proof {
        assert(r@ =~= dword_le_bytes(dword));
    }
    r
}

/// The code of a register name; see [`reg_code`].
fn parse_reg_str(reg_str: &str) -> (r: Option<u8>)
    ensures
        r == reg_code(reg_str@),
{
    if reg_str.unicode_len() != 2 {
        return None;
    }
    let c0 = reg_str.get_char(0);
    let c1 = reg_str.get_char(1);
    if c0 == 'r' || c0 == 'R' {
        if c1 == '0' {
            Some(0x00)
        } else if c1 == '1' {
            Some(0x01)
        } else if c1 == '2' {
            Some(0x02)
        } else if c1 == '3' {
            Some(0x03)
        } else if c1 == '4' {
            Some(0x04)
        } else if c1 == '5' {
            Some(0x05)
        } else if c1 == '6' {
            Some(0x06)
        } else if c1 == '7' {
            Some(0x07)
        } else {
            None
        }
    } else if (c0 == 's' || c0 == 'S') && (c1 == 'p' || c1 == 'P') {
        Some(0x08)
    } else {
        None
    }
}

impl Od {
    /// Emits the bytes of one operand according to the descriptor that
    /// the chosen encoding requires at its position.
    #[verifier::rlimit(60)]
    fn generate_bytecode(self, operand: &Operand, orig_lines: &Vec<String>) -> (r: Result<
        Vec<u8>,
        AsmError,
    >)
        requires
            operand_emit_compat(self, operand.item.deep_view()),
            operand_lines_ok(operand.deep_view(), orig_lines@.len() as int),
        ensures
            match r {
                Ok(b) => operand_bytes(self, operand.deep_view()) == Ok::<_, ErrV>(b@),
                Err(e) => {
                    &&& operand_bytes(self, operand.deep_view()) matches Err(ev)
                    &&& err_matches(e, ev, orig_lines.deep_view())
                },
            },
    {
        match self {
            Od::Register => match &operand.item {
                OperandType::Register(reg_str) => {
                    proof {
                        assert(op_view(operand.item) == OperandV::Register(reg_str@));
                    }
                    match parse_reg_str(reg_str.as_str()) {
                        Some(c) => {
                            let b = vec![c];
                            proof {
                                let o = operand.deep_view();
                                assert(o.item == OperandV::Register(reg_str@));
                                assert(reg_code(reg_str@) == Some(c));
                                assert(b@ =~= seq![c]);
                                assert(operand_bytes(Od::Register, o) == Ok::<Seq<u8>, ErrV>(
                                    seq![c],
                                ));
                                assert(operand_bytes(self, operand.deep_view()) == Ok::<_, ErrV>(
                                    b@,
                                ));
                            }
                            return Ok(b);
                        },
                        None => return Err(
                            AsmError::new(
                                "unrecognized register".to_owned(),
                                operand.span,
                                orig_lines[operand.span.start.line - 1].clone(),
                            ),
                        ),
                    }
                },
                _ => vstd::pervasive::unreached(),
            },
            Od::Imm5 | Od::Imm8 => match &operand.item {
                OperandType::Number(num_val) => {
                    proof {
                        assert(op_view(operand.item) == OperandV::Number(*num_val));
                    }
                    let b = vec![low_byte_exec(*num_val)];
                    proof {
                        assert(b@ =~= seq![low_byte(*num_val)]);
                    }
                    return Ok(b);
                },
                _ => vstd::pervasive::unreached(),
            },
            Od::Imm32 => match &operand.item {
                OperandType::Number(num_val) => {
                    proof {
                        assert(op_view(operand.item) == OperandV::Number(*num_val));
                    }
                    return Ok(dword_to_bytes(to_u32_exec(*num_val)));
                },
                _ => vstd::pervasive::unreached(),
            },
            Od::MemoryRegNoOffset => match &operand.item {
                OperandType::MemoryNoMath(sub_operand) => match &**sub_operand {
                    OperandType::Register(reg_str) => {
                        proof {
                            assert(op_view(operand.item) == OperandV::MemoryNoMath(
                                Box::new(op_view(**sub_operand)),
                            ));
                            assert(op_view(**sub_operand) == OperandV::Register(reg_str@));
                        }
                        match parse_reg_str(reg_str.as_str()) {
                            Some(c) => {
                                let b = vec![c];
                                proof {
                                    assert(b@ =~= seq![c]);
                                }
                                return Ok(b);
                            },
                            None => return Err(
                                AsmError::new(
                                    "unrecognized register".to_owned(),
                                    operand.span,
                                    orig_lines[operand.span.start.line - 1].clone(),
                                ),
                            ),
                        }
                    },
                    _ => vstd::pervasive::unreached(),
                },
                _ => vstd::pervasive::unreached(),
            },
            Od::MemoryRegOffset8 => match &operand.item {
                OperandType::MemoryWithMath { lhs, rhs, op } => {
                    proof {
                        assert(op_view(operand.item) == OperandV::MemoryWithMath {
                            lhs: Box::new(LocatedV { item: op_view(lhs.item), span: lhs.span }),
                            rhs: Box::new(LocatedV { item: op_view(rhs.item), span: rhs.span }),
                            op: *op,
                        });
                        assert(op_view(lhs.item) matches OperandV::Register(_));
                        assert(op_view(rhs.item) matches OperandV::Number(_));
                    }
                    match &lhs.item {
                        OperandType::Register(lreg) => {
                            proof {
                                assert(op_view(lhs.item) == OperandV::Register(lreg@));
                            }
                            let lc = match parse_reg_str(lreg.as_str()) {
                                Some(c) => c,
                                None => {
                                    return Err(
                                        AsmError::new(
                                            "unrecognized register".to_owned(),
                                            lhs.span,
                                            orig_lines[lhs.span.start.line - 1].clone(),
                                        ),
                                    );
                                },
                            };
                            match &rhs.item {
                                OperandType::Number(rhs_val) => {
                                    proof {
                                        assert(op_view(rhs.item) == OperandV::Number(*rhs_val));
                                    }
                                    let signed: i64 = if *op == '-' {
                                        -(*rhs_val)
                                    } else {
                                        *rhs_val
                                    };
                                    let b = vec![lc, low_byte_exec(signed)];
                                    proof {
                                        assert(b@ =~= seq![lc, offset_byte(*op, *rhs_val)]);
                                    }
                                    return Ok(b);
                                },
                                _ => vstd::pervasive::unreached(),
                            }
                        },
                        _ => vstd::pervasive::unreached(),
                    }
                },
                _ => vstd::pervasive::unreached(),
            },
            Od::MemoryRegOffsetReg => match &operand.item {
                OperandType::MemoryWithMath { lhs, rhs, op } => {
                    proof {
                        assert(op_view(operand.item) == OperandV::MemoryWithMath {
                            lhs: Box::new(LocatedV { item: op_view(lhs.item), span: lhs.span }),
                            rhs: Box::new(LocatedV { item: op_view(rhs.item), span: rhs.span }),
                            op: *op,
                        });
                        assert(op_view(lhs.item) matches OperandV::Register(_));
                        assert(op_view(rhs.item) matches OperandV::Register(_));
                    }
                    match (&lhs.item, &rhs.item) {
                        (OperandType::Register(lreg), OperandType::Register(rreg)) => {
                            proof {
                                assert(op_view(lhs.item) == OperandV::Register(lreg@));
                                assert(op_view(rhs.item) == OperandV::Register(rreg@));
                            }
                            let lc = match parse_reg_str(lreg.as_str()) {
                                Some(c) => c,
                                None => {
                                    return Err(
                                        AsmError::new(
                                            "unrecognized register".to_owned(),
                                            lhs.span,
                                            orig_lines[lhs.span.start.line - 1].clone(),
                                        ),
                                    );
                                },
                            };
                            let rc = match parse_reg_str(rreg.as_str()) {
                                Some(c) => c,
                                None => {
                                    return Err(
                                        AsmError::new(
                                            "unrecognized register".to_owned(),
                                            rhs.span,
                                            orig_lines[rhs.span.start.line - 1].clone(),
                                        ),
                                    );
                                },
                            };
                            let b = vec![lc, rc];
                            proof {
                                assert(b@ =~= seq![lc, rc]);
                            }
                            return Ok(b);
                        },
                        _ => vstd::pervasive::unreached(),
                    }
                },
                _ => vstd::pervasive::unreached(),
            },
            Od::MemoryImm32 | Od::MemoryRegOffset32 | Od::Label | Od::String => {
                proof {
                    assert(operand_bytes(self, operand.deep_view()) matches Err(ev));
                    assert(orig_lines.deep_view()[operand.span.start.line - 1]
                        == orig_lines@[operand.span.start.line - 1]@);
                }
                return Err(
                    AsmError::new(
                        "unsupported operand encoding".to_owned(),
                        operand.span,
                        orig_lines[operand.span.start.line - 1].clone(),
                    ),
                );
            },
        }
    }
}

/// The operand shapes a directive's emission rule reads.
pub open spec fn pseudo_operand_compat(kind: PseudoKind, ops: Seq<OperandLocV>) -> bool {
    match kind {
        PseudoKind::StoreDword | PseudoKind::StoreByte => ops.len() >= 1 && (
        ops[0].item matches OperandV::Number(_)),
        PseudoKind::StoreString => ops.len() >= 1 && (ops[0].item matches OperandV::String(_)),
        _ => true,
    }
}

/// What emission needs of one resolved instruction: the chosen
/// encoding's descriptor list lines up with the operands, and every
/// operand has the shape its position requires.
pub open spec fn instr_emittable(r: ResolvedV) -> bool {
    match r.desc {
        None => true,
        Some(c) => {
            &&& chosen_operands(c).len() == r.instr.item.operands.len()
            &&& forall|k: int|
                0 <= k < r.instr.item.operands.len() ==> operand_emit_compat(
                    chosen_operands(c)[k],
                    (#[trigger] r.instr.item.operands[k]).item,
                )
            &&& match c {
                ChosenV::Pseudo(p) => pseudo_operand_compat(p.kind, r.instr.item.operands),
                _ => true,
            }
        },
    }
}

/// Emits one regular instruction: the opcode byte, then each operand's
/// bytes under the descriptor required at its position.
fn generate_regular_instruction(resolved_instr: &ResolvedInstr, orig_lines: &Vec<String>) -> (r:
    Result<Vec<u8>, AsmError>)
    requires
        resolved_instr.deep_view().desc matches Some(c) && c is Regular,
        instr_emittable(resolved_instr.deep_view()),
        instr_lines_ok(resolved_instr.deep_view().instr, orig_lines@.len() as int),
    ensures
        match r {
            Ok(b) => instr_bytes(resolved_instr.deep_view()) == Ok::<_, ErrV>(b@),
            Err(e) => {
                &&& instr_bytes(resolved_instr.deep_view()) matches Err(ev)
                &&& err_matches(e, ev, orig_lines.deep_view())
            },
        },
{
    let ghost rv = resolved_instr.deep_view();
    let instr_descriptor = match &resolved_instr.desc {
        Some(ChosenDesc::Regular(d)) => d,
        _ => vstd::pervasive::unreached(),
    };
    let ghost vv = instr_descriptor.deep_view();
    proof {
        assert(rv.desc == Some(ChosenV::Regular(vv)));
        assert(chosen_operands(ChosenV::Regular(vv)) == vv.operands);
    }
    let ghost opsv = rv.instr.item.operands;

    let mut bytecode: Vec<u8> = vec![instr_descriptor.opcode];
    proof {
        assert(bytecode@ =~= seq![vv.opcode]);
    }
    let mut idx: usize = 0;
    while idx < instr_descriptor.operands.len()
        invariant
            idx <= instr_descriptor.operands@.len(),
            rv == resolved_instr.deep_view(),
            rv.desc == Some(ChosenV::Regular(vv)),
            vv == instr_descriptor.deep_view(),
            vv.operands == instr_descriptor.operands@,
            opsv == rv.instr.item.operands,
            opsv.len() == vv.operands.len(),
            opsv.len() == resolved_instr.instr.item.operands@.len(),
            instr_emittable(rv),
            instr_lines_ok(rv.instr, orig_lines@.len() as int),
            match regular_operand_bytes(vv.operands, opsv, idx as int) {
                Ok(t) => instr_bytes(rv) == Ok::<_, ErrV>(bytecode@ + t),
                Err(e) => instr_bytes(rv) == Err::<Seq<u8>, _>(e),
            },
        decreases instr_descriptor.operands@.len() - idx,
    {
        proof {
            assert(opsv[idx as int] == (resolved_instr.instr.item.operands@[
                idx as int
            ]).deep_view());
            assert(operand_emit_compat(vv.operands[idx as int], opsv[idx as int].item));
            assert(operand_lines_ok(opsv[idx as int], orig_lines@.len() as int));
        }
        let operand = &resolved_instr.instr.item.operands[idx];
        let mut operand_bytecode =
            match instr_descriptor.operands[idx].generate_bytecode(operand, orig_lines) {
            Ok(b) => b,
            Err(e) => {
                return Err(e);
            },
        };
        let ghost prevb = bytecode@;
        let ghost obv = operand_bytecode@;
        bytecode.append(&mut operand_bytecode);
        proof {
            assert(bytecode@ == prevb + obv);
            match regular_operand_bytes(vv.operands, opsv, idx + 1) {
                Ok(t) => {
                    assert(prevb + (obv + t) =~= (prevb + obv) + t);
                },
                Err(_) => {},
            }
        }
        idx += 1;
    }
    proof {
        assert(regular_operand_bytes(vv.operands, opsv, idx as int) == Ok::<_, ErrV>(
            Seq::<u8>::empty(),
        ));
        assert(bytecode@ + Seq::<u8>::empty() =~= bytecode@);
    }
    Ok(bytecode)
}

/// Emits the payload of one directive: zero padding, a little-endian
/// dword, a single byte, or the raw bytes of a string literal.
fn generate_pseudo_instruction(resolved_instr: &ResolvedInstr) -> (r: Vec<u8>)
    requires
        resolved_instr.deep_view().desc matches Some(c) && c is Pseudo,
        instr_emittable(resolved_instr.deep_view()),
    ensures
        instr_bytes(resolved_instr.deep_view()) == Ok::<_, ErrV>(r@),
{
    let ghost rv = resolved_instr.deep_view();
    let pseudo_descriptor = match &resolved_instr.desc {
        Some(ChosenDesc::Pseudo(p)) => p,
        _ => vstd::pervasive::unreached(),
    };
    proof {
        assert(rv.desc == Some(ChosenV::Pseudo(pseudo_descriptor.deep_view())));
    }
    match pseudo_descriptor.kind {
        PseudoKind::Origin | PseudoKind::Skip => {
            let mut zeros: Vec<u8> = Vec::new();
            let mut i: usize = 0;
            while i < resolved_instr.size
                invariant
                    i <= resolved_instr.size,
                    zeros@.len() == i,
                    forall|j: int| 0 <= j < i ==> zeros@[j] == 0u8,
                decreases resolved_instr.size - i,
            {
                zeros.push(0u8);
                i += 1;
            }
            proof {
                assert(zeros@ =~= Seq::new(rv.size as nat, |j: int| 0u8));
            }
            zeros
        },
        PseudoKind::StoreDword => match &resolved_instr.instr.item.operands[0].item {
            OperandType::Number(num_val) => {
                proof {
                    assert(rv.instr.item.operands[0] == (resolved_instr.instr.item.operands@[
                        0
                    ]).deep_view());
                    assert(op_view(resolved_instr.instr.item.operands@[0].item)
                        == OperandV::Number(*num_val));
                }
                dword_to_bytes(to_u32_exec(*num_val))
            },
            _ => vstd::pervasive::unreached(),
        },
        PseudoKind::StoreByte => match &resolved_instr.instr.item.operands[0].item {
            OperandType::Number(num_val) => {
                proof {
                    assert(rv.instr.item.operands[0] == (resolved_instr.instr.item.operands@[
                        0
                    ]).deep_view());
                    assert(op_view(resolved_instr.instr.item.operands@[0].item)
                        == OperandV::Number(*num_val));
                }
                let b = vec![low_byte_exec(*num_val)];
                proof {
                    assert(b@ =~= seq![low_byte(*num_val)]);
                }
                b
            },
            _ => vstd::pervasive::unreached(),
        },
        PseudoKind::StoreString => match &resolved_instr.instr.item.operands[0].item {
            OperandType::String(str_val) => {
                proof {
                    assert(rv.instr.item.operands[0] == (resolved_instr.instr.item.operands@[
                        0
                    ]).deep_view());
                    assert(op_view(resolved_instr.instr.item.operands@[0].item)
                        == OperandV::String(str_val@));
                }
                str_val.as_str().as_bytes_vec()
            },
            _ => vstd::pervasive::unreached(),
        },
    }
}

/// Emits the whole program image, in program order; the result equals
/// [`emit_from`] at position 0. A bare label line contributes nothing.
pub fn generate_bytecode(resolved: &Vec<ResolvedInstr>, orig_lines: &Vec<String>) -> (r: Result<
    Vec<u8>,
    AsmError,
>)
    requires
        rs_lines_ok(resolved.deep_view(), orig_lines@.len() as int),
        forall|i: int|
            0 <= i < resolved.deep_view().len() ==> instr_emittable(
                #[trigger] resolved.deep_view()[i],
            ),
    ensures
        match r {
            Ok(b) => emit_from(resolved.deep_view(), 0) == Ok::<_, ErrV>(b@),
            Err(e) => {
                &&& emit_from(resolved.deep_view(), 0) matches Err(ev)
                &&& err_matches(e, ev, orig_lines.deep_view())
            },
        },
{
    let ghost rsv = resolved.deep_view();
    let mut bytecode: Vec<u8> = Vec::new();
    let mut i: usize = 0;
    while i < resolved.len()
        invariant
            i <= resolved@.len(),
            rsv == resolved.deep_view(),
            rsv.len() == resolved@.len(),
            rs_lines_ok(rsv, orig_lines@.len() as int),
            forall|j: int| 0 <= j < rsv.len() ==> instr_emittable(#[trigger] rsv[j]),
            match emit_from(rsv, i as int) {
                Ok(t) => emit_from(rsv, 0) == Ok::<_, ErrV>(bytecode@ + t),
                Err(e) => emit_from(rsv, 0) == Err::<Seq<u8>, _>(e),
            },
        decreases resolved@.len() - i,
    {
        proof {
            assert(rsv[i as int] == (resolved@[i as int]).deep_view());
        }
        let mut instr_bytecode: Vec<u8> = match &resolved[i].desc {
            None => Vec::new(),
            Some(ChosenDesc::Regular(_)) => {
                match generate_regular_instruction(&resolved[i], orig_lines) {
                    Ok(b) => b,
                    Err(e) => {
                        return Err(e);
                    },
                }
            },
            Some(ChosenDesc::Pseudo(_)) => generate_pseudo_instruction(&resolved[i]),
        };
        let ghost prevb = bytecode@;
        let ghost ibv = instr_bytecode@;
        proof {
            assert(instr_bytes(rsv[i as int]) == Ok::<_, ErrV>(ibv));
        }
        bytecode.append(&mut instr_bytecode);
        proof {
            assert(bytecode@ == prevb + ibv);
            match emit_from(rsv, i + 1) {
                Ok(t) => {
                    assert(prevb + (ibv + t) =~= (prevb + ibv) + t);
                },
                Err(_) => {},
            }
        }
        i += 1;
    }
    proof {
        assert(emit_from(rsv, i as int) == Ok::<_, ErrV>(Seq::<u8>::empty()));
        assert(bytecode@ + Seq::<u8>::empty() =~= bytecode@);
    }
    Ok(bytecode)
}

// ---------------------------------------------------------------------
// The pipeline.
// ---------------------------------------------------------------------
/// Memory arithmetic the emitter can encode: the operator is `+` or
/// `-`, and a register offset only ever adds.
pub open spec fn operand_mem_op_ok(o: OperandV) -> bool {
    match o {
        OperandV::MemoryWithMath { lhs, rhs, op } => (op == '+' || op == '-') && ((
        rhs.item matches OperandV::Register(_)) ==> op == '+'),
        _ => true,
    }
}

/// Every memory operand of the instruction obeys [`operand_mem_op_ok`].
pub open spec fn instr_mem_ops_ok(iv: InstrV) -> bool {
    forall|k: int|
        0 <= k < iv.item.operands.len() ==> operand_mem_op_ok((#[trigger] iv.item.operands[k]).item)
}

/// What the assembler requires of the parsed program it is handed: the
/// conditions of [`instrs_supported`] together with encodable memory
/// arithmetic everywhere.
pub open spec fn prog_supported(instrs: Seq<InstrV>, n_lines: int) -> bool {
    &&& instrs_supported(instrs, n_lines)
    &&& forall|i: int| 0 <= i < instrs.len() ==> instr_mem_ops_ok(#[trigger] instrs[i])
}

/// The whole pipeline on instruction values: resolve addresses, sizes
/// and encodings; resolve labels; re-validate the chosen encodings
/// against the now-literal operands; emit the image bytes.
pub open spec fn codegen_v(instrs: Seq<InstrV>) -> Result<Seq<u8>, ErrV> {
    match resolve_from(instrs, 0, 0) {
        Err(e) => Err(e),
        Ok(rs) => match resolve_labels_from(rs, 0) {
            Err(e) => Err(e),
            Ok(rs2) => match revalidate_from(rs2, 0) {
                Some(e) => Err(e),
                None => emit_from(rs2, 0),
            },
        },
    }
}

/// Resolution keeps each instruction as it was, and records only
/// encodings drawn from the catalogues under the instruction's own
/// mnemonic.
proof fn lemma_resolve_from_instrs(instrs: Seq<InstrV>, i: int, addr: usize, rs: Seq<ResolvedV>)
    requires
        0 <= i <= instrs.len(),
        resolve_from(instrs, i, addr) == Ok::<_, ErrV>(rs),
    ensures
        rs.len() == instrs.len() - i,
        forall|j: int| 0 <= j < rs.len() ==> (#[trigger] rs[j]).instr == instrs[i + j],
        forall|j: int|
            0 <= j < rs.len() ==> (match (#[trigger] rs[j]).desc {
                Some(ChosenV::Pseudo(p)) => rs[j].instr.item.mnemonic is Some && pseudo_table(
                    rs[j].instr.item.mnemonic.unwrap(),
                ) == Some(p) && pseudo_size_v(p.kind, rs[j].instr, rs[j].addr) == Ok::<_, ErrV>(
                    rs[j].size,
                ),
                _ => true,
            }),
    decreases instrs.len() - i,
{
    if i < instrs.len() {
        match resolve_one(instrs[i], addr) {
            Ok(r) => {
                if addr + r.size <= max_addr() {
                    let next = (addr + r.size) as usize;
                    match resolve_from(instrs, i + 1, next) {
                        Ok(t) => {
                            lemma_resolve_from_instrs(instrs, i + 1, next, t);
                            assert(rs == seq![r] + t);
                            assert forall|j: int|
                                0 <= j < rs.len() implies (#[trigger] rs[j]).instr == instrs[i + j]
                                && (match rs[j].desc {
                                Some(ChosenV::Pseudo(p)) => rs[j].instr.item.mnemonic is Some
                                    && pseudo_table(rs[j].instr.item.mnemonic.unwrap()) == Some(p),
                                _ => true,
                            }) by {
                                if j > 0 {
                                    assert(rs[j] == t[j - 1]);
                                    assert(t[j - 1].instr == instrs[i + 1 + (j - 1)]);
                                }
                            }
                        },
                        Err(_) => {},
                    }
                }
            },
            Err(_) => {},
        }
    }
}

/// Label substitution keeps addresses, sizes, encodings, labels,
/// mnemonics and spans; it only turns symbolic reference operands into
/// numbers, and afterwards no operand is symbolic.
proof fn lemma_subst_ops_pointwise(all: Seq<ResolvedV>, ops: Seq<OperandLocV>, t: Seq<OperandLocV>, k: int)
    requires
        0 <= k <= ops.len(),
        subst_operands(all, ops, k) == Ok::<_, ErrV>(t),
    ensures
        t.len() == ops.len() - k,
        forall|j: int|
            k <= j < ops.len() ==> subst_operand(all, ops[j]) == Ok::<_, ErrV>(#[trigger] t[j - k]),
    decreases ops.len() - k,
{
    if k < ops.len() {
        match subst_operand(all, ops[k]) {
            Ok(o) => {
                match subst_operands(all, ops, k + 1) {
                    Ok(rest) => {
                        lemma_subst_ops_pointwise(all, ops, rest, k + 1);
                        assert(t == seq![o] + rest);
                        assert forall|j: int|
                            k <= j < ops.len() implies subst_operand(all, ops[j]) == Ok::<_, ErrV>(
                            #[trigger] t[j - k],
                        ) by {
                            if j == k {
                                assert(t[0] == o);
                            } else {
                                assert(t[j - k] == rest[j - k - 1]);
                                assert(subst_operand(all, ops[j]) == Ok::<_, ErrV>(
                                    rest[j - (k + 1)],
                                ));
                            }
                        }
                    },
                    Err(_) => {},
                }
            },
            Err(_) => {},
        }
    }
}

/// What one substituted operand keeps of the original.
proof fn lemma_subst_operand_props(all: Seq<ResolvedV>, a: OperandLocV, b: OperandLocV, n_lines: int)
    requires
        subst_operand(all, a) == Ok::<_, ErrV>(b),
        rs_addrs_fit(all),
    ensures
        b.span == a.span,
        !(b.item matches OperandV::Identifier(_)),
        operand_shape_supported(a.item) ==> operand_shape_supported(b.item),
        operand_lines_ok(a, n_lines) ==> operand_lines_ok(b, n_lines),
        operand_mem_op_ok(a.item) ==> operand_mem_op_ok(b.item),
{
    match a.item {
        OperandV::Identifier(name) => {},
        _ => {
            assert(b == a);
        },
    }
}

/// What a substituted program keeps of the original.
proof fn lemma_subst_preserves(all: Seq<ResolvedV>, out: Seq<ResolvedV>, i: int, n_lines: int)
    requires
        0 <= i <= all.len(),
        resolve_labels_from(all, i) == Ok::<_, ErrV>(out),
        rs_addrs_fit(all),
    ensures
        out.len() == all.len() - i,
        forall|j: int|
            0 <= j < out.len() ==> {
                let a = all[i + j];
                let b = #[trigger] out[j];
                &&& b.addr == a.addr
                &&& b.size == a.size
                &&& b.desc == a.desc
                &&& b.instr.span == a.instr.span
                &&& b.instr.item.label == a.instr.item.label
                &&& b.instr.item.mnemonic == a.instr.item.mnemonic
                &&& b.instr.item.operands.len() == a.instr.item.operands.len()
                &&& forall|k: int|
                    0 <= k < b.instr.item.operands.len() ==> subst_operand(
                        all,
                        a.instr.item.operands[k],
                    ) == Ok::<_, ErrV>(#[trigger] b.instr.item.operands[k])
            },
    decreases all.len() - i,
{
    if i < all.len() {
        match subst_instr(all, all[i]) {
            Ok(r) => {
                match resolve_labels_from(all, i + 1) {
                    Ok(t) => {
                        lemma_subst_preserves(all, t, i + 1, n_lines);
                        assert(out == seq![r] + t);
                        match subst_operands(all, all[i].instr.item.operands, 0) {
                            Ok(newops) => {
                                lemma_subst_ops_pointwise(
                                    all,
                                    all[i].instr.item.operands,
                                    newops,
                                    0,
                                );
                                assert forall|k: int|
                                    0 <= k < r.instr.item.operands.len() implies subst_operand(
                                    all,
                                    all[i].instr.item.operands[k],
                                ) == Ok::<_, ErrV>(#[trigger] r.instr.item.operands[k]) by {
                                    assert(r.instr.item.operands[k] == newops[k - 0]);
                                }
                            },
                            Err(_) => {},
                        }
                        assert forall|j: int| 1 <= j < out.len() implies out[j] == t[j - 1] by {}
                    },
                    Err(_) => {},
                }
            },
            Err(_) => {},
        }
    }
}

/// A program that re-validates cleanly re-validates instruction by
/// instruction.
proof fn lemma_revalidate_pointwise(rs: Seq<ResolvedV>, i: int)
    requires
        0 <= i <= rs.len(),
        revalidate_from(rs, i) is None,
    ensures
        forall|j: int| i <= j < rs.len() ==> revalidate_one(#[trigger] rs[j]) is None,
    decreases rs.len() - i,
{
    if i < rs.len() {
        lemma_revalidate_pointwise(rs, i + 1);
    }
}

/// Every element of a number's descriptor set is an immediate width.
proof fn lemma_number_descriptors_elems(n: int)
    ensures
        forall|i: int|
            0 <= i < number_descriptors(n).len() ==> {
                let d = #[trigger] number_descriptors(n)[i];
                d == Od::Imm5 || d == Od::Imm8 || d == Od::Imm32
            },
{
}

/// Membership in a memory-offset descriptor set implies the width fits.
proof fn lemma_mem_offset_members(n: int)
    ensures
        crate::descriptor::mem_offset_descriptors(n).contains(Od::MemoryRegOffset8)
            <==> fits_imm8(n),
        forall|i: int|
            0 <= i < crate::descriptor::mem_offset_descriptors(n).len() ==> {
                let d = #[trigger] crate::descriptor::mem_offset_descriptors(n)[i];
                d == Od::MemoryRegOffset8 || d == Od::MemoryRegOffset32
            },
{
    if fits_imm8(n) {
        assert(crate::descriptor::mem_offset_descriptors(n)[0] == Od::MemoryRegOffset8);
    }
}

/// An operand whose descriptor set accepts the required descriptor has
/// the shape that emission under that descriptor reads.
proof fn lemma_emit_compat(o: OperandV, d: Od)
    requires
        operand_shape_supported(o),
        operand_mem_op_ok(o),
        !(o matches OperandV::Identifier(_)),
        desc_matches(d, operand_descriptors(o)),
    ensures
        operand_emit_compat(d, o),
        d == Od::String ==> o matches OperandV::String(_),
        (d == Od::Imm5 || d == Od::Imm8 || d == Od::Imm32) ==> o matches OperandV::Number(_),
{
    let ds = operand_descriptors(o);
    assert(!(ds.len() == 1 && ds[0] is Label)) by {
        match o {
            OperandV::Number(n) => {
                lemma_number_descriptors_elems(n as int);
                if ds.len() == 1 {
                    assert(ds[0] == number_descriptors(n as int)[0]);
                }
            },
            OperandV::MemoryWithMath { lhs, rhs, op } => {
                match rhs.item {
                    OperandV::Number(n) => {
                        lemma_mem_offset_members(n as int);
                        if ds.len() == 1 {
                            assert(ds[0] == crate::descriptor::mem_offset_descriptors(
                                n as int,
                            )[0]);
                        }
                    },
                    _ => {},
                }
            },
            _ => {},
        }
    }
    assert(ds.contains(d));
    let w = choose|w: int| 0 <= w < ds.len() && ds[w] == d;
    match o {
        OperandV::Register(_) => {},
        OperandV::Identifier(_) => {},
        OperandV::Number(n) => {
            lemma_number_descriptors_elems(n as int);
            assert(ds[w] == d);
        },
        OperandV::MemoryNoMath(inner) => {},
        OperandV::MemoryWithMath { lhs, rhs, op } => {
            match rhs.item {
                OperandV::Number(n) => {
                    lemma_mem_offset_members(n as int);
                    assert(ds[w] == d);
                    if d == Od::MemoryRegOffset8 {
                        assert(fits_imm8(n as int));
                    }
                },
                _ => {},
            }
        },
        OperandV::String(_) => {},
    }
}

/// After label resolution and a clean re-validation, every instruction
/// of a program the resolver produced is emittable.
proof fn lemma_pipeline_emittable(
    instrs: Seq<InstrV>,
    rs: Seq<ResolvedV>,
    rs2: Seq<ResolvedV>,
    n_lines: int,
)
    requires
        prog_supported(instrs, n_lines),
        resolve_from(instrs, 0, 0) == Ok::<_, ErrV>(rs),
        resolve_labels_from(rs, 0) == Ok::<_, ErrV>(rs2),
        revalidate_from(rs2, 0) is None,
    ensures
        rs_lines_ok(rs2, n_lines),
        rs_shapes_ok(rs2),
        forall|j: int| 0 <= j < rs2.len() ==> instr_emittable(#[trigger] rs2[j]),
{
    lemma_resolve_from_addrs(instrs, 0, 0, rs);
    lemma_resolve_from_instrs(instrs, 0, 0, rs);
    assert(rs_addrs_fit(rs));
    lemma_subst_preserves(rs, rs2, 0, n_lines);
    lemma_revalidate_pointwise(rs2, 0);

    assert forall|j: int|
        0 <= j < rs2.len() implies instr_lines_ok((#[trigger] rs2[j]).instr, n_lines)
        && instr_shapes_supported(rs2[j].instr) && instr_mem_ops_ok(rs2[j].instr) && (forall|k: int|
        0 <= k < rs2[j].instr.item.operands.len()
            ==> !((#[trigger] rs2[j].instr.item.operands[k]).item matches OperandV::Identifier(
            _,
        ))) by {
        let a = rs[0 + j];
        let b = rs2[j];
        assert(a.instr == instrs[0 + j]);
        assert(instr_lines_ok(instrs[j], n_lines) && instr_shapes_supported(instrs[j])
            && instr_mem_ops_ok(instrs[j]));
        assert(span_line_ok(b.instr.span, n_lines));
        assert forall|k: int|
            0 <= k < b.instr.item.operands.len() implies operand_lines_ok(
            #[trigger] b.instr.item.operands[k],
            n_lines,
        ) && operand_shape_supported(b.instr.item.operands[k].item) && operand_mem_op_ok(
            b.instr.item.operands[k].item,
        ) && !(b.instr.item.operands[k].item matches OperandV::Identifier(_)) by {
            assert(subst_operand(rs, a.instr.item.operands[k]) == Ok::<_, ErrV>(
                b.instr.item.operands[k],
            ));
            assert(operand_lines_ok(a.instr.item.operands[k], n_lines));
            assert(operand_shape_supported((a.instr.item.operands[k]).item));
            assert(operand_mem_op_ok((a.instr.item.operands[k]).item));
            lemma_subst_operand_props(rs, a.instr.item.operands[k], b.instr.item.operands[k], n_lines);
        }
    }

    assert forall|j: int| 0 <= j < rs2.len() implies instr_emittable(#[trigger] rs2[j]) by {
        let b = rs2[j];
        match b.desc {
            None => {},
            Some(c) => {
                assert(revalidate_one(b) is None);
                match classify_from(b.instr.item.operands, 0) {
                    Ok(actual) => {
                        lemma_classify_ok_pointwise(b.instr.item.operands, actual, 0);
                        assert(operands_match(chosen_operands(c), actual));
                        assert forall|k: int|
                            0 <= k < b.instr.item.operands.len() implies operand_emit_compat(
                            chosen_operands(c)[k],
                            (#[trigger] b.instr.item.operands[k]).item,
                        ) by {
                            assert(desc_matches(chosen_operands(c)[k], actual[k]));
                            assert(actual[k - 0] == operand_descriptors(
                                b.instr.item.operands[k].item,
                            ));
                            lemma_emit_compat(
                                b.instr.item.operands[k].item,
                                chosen_operands(c)[k],
                            );
                        }
                        match c {
                            ChosenV::Pseudo(p) => {
                                assert(rs[0 + j].desc == b.desc);
                                assert(b.instr.item.mnemonic == rs[j].instr.item.mnemonic);
                                assert(pseudo_table(rs[j].instr.item.mnemonic.unwrap()) == Some(
                                    p,
                                ));
                                match p.kind {
                                    PseudoKind::StoreDword | PseudoKind::StoreByte => {
                                        assert(p.operands.len() == 1);
                                        assert(desc_matches(p.operands[0], actual[0]));
                                        assert(actual[0 - 0] == operand_descriptors(
                                            b.instr.item.operands[0].item,
                                        ));
                                        assert(p.operands[0] == Od::Imm32 || p.operands[0]
                                            == Od::Imm8);
                                        lemma_emit_compat(
                                            b.instr.item.operands[0].item,
                                            p.operands[0],
                                        );
                                    },
                                    PseudoKind::StoreString => {
                                        assert(p.operands.len() == 1);
                                        assert(p.operands[0] == Od::String);
                                        assert(desc_matches(p.operands[0], actual[0]));
                                        assert(actual[0 - 0] == operand_descriptors(
                                            b.instr.item.operands[0].item,
                                        ));
                                        lemma_emit_compat(
                                            b.instr.item.operands[0].item,
                                            p.operands[0],
                                        );
                                    },
                                    _ => {},
                                }
                            },
                            _ => {},
                        }
                    },
                    Err(_) => {},
                }
            },
        }
    }
}

/// Assembles a parsed program into its flat binary image.
///
/// The pipeline resolves every instruction to an address, a size and an
/// encoding, rewrites symbolic references to label addresses, checks
/// that every resolved value still fits the encoding chosen for it, and
/// emits the image bytes in program order. On the first failure the
/// error is returned and no bytes are produced; the result equals
/// [`codegen_v`] on the program's instructions.
pub fn codegen(parsed_prog: &ParsedProgram) -> (r: Result<Vec<u8>, AsmError>)
    requires
        prog_supported(
            parsed_prog.instructions.deep_view(),
            parsed_prog.orig_lines@.len() as int,
        ),
    ensures
        match r {
            Ok(b) => codegen_v(parsed_prog.instructions.deep_view()) == Ok::<_, ErrV>(b@),
            Err(e) => {
                &&& codegen_v(parsed_prog.instructions.deep_view()) matches Err(ev)
                &&& err_matches(e, ev, parsed_prog.orig_lines.deep_view())
            },
        },
{
    let ghost instrsv = parsed_prog.instructions.deep_view();
    let ghost n_lines = parsed_prog.orig_lines@.len() as int;

    let resolved = match resolve_instructions(&parsed_prog.instructions, &parsed_prog.orig_lines) {
        Ok(rs) => rs,
        Err(e) => {
            return Err(e);
        },
    };
    let ghost rsv = resolved.deep_view();
    proof {
        lemma_resolve_from_addrs(instrsv, 0, 0, rsv);
        lemma_resolve_from_instrs(instrsv, 0, 0, rsv);
        assert forall|j: int|
            0 <= j < rsv.len() implies instr_lines_ok((#[trigger] rsv[j]).instr, n_lines) by {
            assert(rsv[j].instr == instrsv[0 + j]);
        }
        assert(rs_addrs_fit(rsv));
    }

    let resolved = match resolve_labels(&resolved, &parsed_prog.orig_lines) {
        Ok(rs) => rs,
        Err(e) => {
            return Err(e);
        },
    };
    let ghost rs2v = resolved.deep_view();
    proof {
        lemma_subst_preserves(rsv, rs2v, 0, n_lines);
        assert forall|j: int|
            0 <= j < rs2v.len() implies instr_lines_ok((#[trigger] rs2v[j]).instr, n_lines)
            && instr_shapes_supported(rs2v[j].instr) by {
            let a = rsv[0 + j];
            let b = rs2v[j];
            assert(a.instr == instrsv[0 + j]);
            assert forall|k: int|
                0 <= k < b.instr.item.operands.len() implies operand_lines_ok(
                #[trigger] b.instr.item.operands[k],
                n_lines,
            ) && operand_shape_supported(b.instr.item.operands[k].item) by {
                assert(subst_operand(rsv, a.instr.item.operands[k]) == Ok::<_, ErrV>(
                    b.instr.item.operands[k],
                ));
                assert(operand_lines_ok(a.instr.item.operands[k], n_lines));
                assert(operand_shape_supported((a.instr.item.operands[k]).item));
                lemma_subst_operand_props(
                    rsv,
                    a.instr.item.operands[k],
                    b.instr.item.operands[k],
                    n_lines,
                );
            }
        }
    }

    match revalidate(&resolved, &parsed_prog.orig_lines) {
        Ok(_) => {},
        Err(e) => {
            return Err(e);
        },
    }
    proof {
        lemma_pipeline_emittable(instrsv, rsv, rs2v, n_lines);
    }

    generate_bytecode(&resolved, &parsed_prog.orig_lines)
}

/// Whether one operand meets the structural conditions the assembler
/// requires; see [`prog_supported`].
fn operand_supported_check(operand: &Operand) -> (r: bool)
    ensures
        r == (operand_shape_supported(operand.item.deep_view()) && operand_mem_op_ok(
            operand.item.deep_view(),
        )),
{
    match &operand.item {
        OperandType::MemoryNoMath(inner) => {
            proof {
                assert(op_view(operand.item) == OperandV::MemoryNoMath(
                    Box::new(op_view(**inner)),
                ));
            }
            match &**inner {
                OperandType::Number(_) => {
                    proof {
                        assert(op_view(**inner) matches OperandV::Number(_));
                    }
                    true
                },
                OperandType::Register(_) => {
                    proof {
                        assert(op_view(**inner) matches OperandV::Register(_));
                    }
                    true
                },
                _ => {
                    proof {
                        assert(!(op_view(**inner) matches OperandV::Number(_)) && !(op_view(
                            **inner,
                        ) matches OperandV::Register(_)));
                    }
                    false
                },
            }
        },
        OperandType::MemoryWithMath { lhs, rhs, op } => {
            proof {
                assert(op_view(operand.item) == OperandV::MemoryWithMath {
                    lhs: Box::new(LocatedV { item: op_view(lhs.item), span: lhs.span }),
                    rhs: Box::new(LocatedV { item: op_view(rhs.item), span: rhs.span }),
                    op: *op,
                });
            }
            let lhs_ok = match &lhs.item {
                OperandType::Register(_) => {
                    proof {
                        assert(op_view(lhs.item) matches OperandV::Register(_));
                    }
                    true
                },
                _ => {
                    proof {
                        assert(!(op_view(lhs.item) matches OperandV::Register(_)));
                    }
                    false
                },
            };
            match &rhs.item {
                OperandType::Register(_) => {
                    proof {
                        assert(op_view(rhs.item) matches OperandV::Register(_));
                    }
                    lhs_ok && *op == '+'
                },
                OperandType::Number(_) => {
                    proof {
                        assert(op_view(rhs.item) matches OperandV::Number(_));
                    }
                    lhs_ok && (*op == '+' || *op == '-')
                },
                _ => {
                    proof {
                        assert(!(op_view(rhs.item) matches OperandV::Register(_)) && !(op_view(
                            rhs.item,
                        ) matches OperandV::Number(_)));
                    }
                    false
                },
            }
        },
        OperandType::Identifier(_) => {
            proof {
                assert(op_view(operand.item) matches OperandV::Identifier(_));
            }
            true
        },
        _ => {
            proof {
                assert(match op_view(operand.item) {
                    OperandV::Register(_) | OperandV::Number(_) | OperandV::String(_) => true,
                    _ => false,
                });
            }
            true
        },
    }
}

/// Whether one instruction meets every structural condition the
/// assembler requires of its input.
fn instr_supported_check(instr: &Instr, n_lines: usize) -> (r: bool)
    ensures
        r == (instr_shapes_supported(instr.deep_view()) && instr_lines_ok(
            instr.deep_view(),
            n_lines as int,
        ) && pseudo_size_arg_ok(instr.deep_view()) && instr_mem_ops_ok(instr.deep_view())),
{
    let ghost iv = instr.deep_view();
    if !(1 <= instr.span.start.line && instr.span.start.line <= n_lines) {
        return false;
    }
    let origin_or_skip = match &instr.item.mnemonic {
        Some(m) => {
            let r = crate::strutil::str_eq(m.as_str(), ".origin") || crate::strutil::str_eq(
                m.as_str(),
                ".skip",
            );
            proof {
                assert(iv.item.mnemonic == Some(m@));
            }
            r
        },
        None => false,
    };
    let mut i: usize = 0;
    let mut ok = true;
    while i < instr.item.operands.len()
        invariant
            i <= instr.item.operands@.len(),
            iv == instr.deep_view(),
            iv.item.operands.len() == instr.item.operands@.len(),
            origin_or_skip == (match iv.item.mnemonic {
                Some(m) => m == ".origin"@ || m == ".skip"@,
                None => false,
            }),
            ok == (forall|j: int|
                0 <= j < i ==> {
                    let o = #[trigger] iv.item.operands[j];
                    &&& operand_shape_supported(o.item)
                    &&& operand_mem_op_ok(o.item)
                    &&& operand_lines_ok(o, n_lines as int)
                    &&& (origin_or_skip ==> !(iv.item.operands.len() == 1 && o.item is Identifier))
                }),
        decreases instr.item.operands@.len() - i,
    {
        proof {
            assert(iv.item.operands[i as int] == (instr.item.operands@[i as int]).deep_view());
        }
        let operand = &instr.item.operands[i];
        let mut this_ok = operand_supported_check(operand);
        if !(1 <= operand.span.start.line && operand.span.start.line <= n_lines) {
            this_ok = false;
        }
        match &operand.item {
            OperandType::MemoryWithMath { lhs, rhs, op } => {
                proof {
                    assert(op_view(operand.item) == OperandV::MemoryWithMath {
                        lhs: Box::new(LocatedV { item: op_view(lhs.item), span: lhs.span }),
                        rhs: Box::new(LocatedV { item: op_view(rhs.item), span: rhs.span }),
                        op: *op,
                    });
                }
                if !(1 <= lhs.span.start.line && lhs.span.start.line <= n_lines) {
                    this_ok = false;
                }
                if !(1 <= rhs.span.start.line && rhs.span.start.line <= n_lines) {
                    this_ok = false;
                }
            },
            OperandType::Identifier(_) => {
                proof {
                    assert(op_view(operand.item) matches OperandV::Identifier(_));
                }
                if origin_or_skip && instr.item.operands.len() == 1 {
                    this_ok = false;
                }
            },
            _ => {
                proof {
                    assert(!(op_view(operand.item) matches OperandV::MemoryWithMath { .. })
                        && !(op_view(operand.item) matches OperandV::Identifier(_)));
                }
            },
        }
        ok = ok && this_ok;
        i += 1;
    }
    ok
}

/// Whether a parsed program meets every structural condition
/// [`codegen`] requires: operand shapes the classifier understands,
/// spans that index the source lines, encodable memory arithmetic, and
/// no bare symbolic reference as the operand of `.origin` or `.skip`.
pub fn program_supported_check(parsed_prog: &ParsedProgram) -> (r: bool)
    ensures
        r == prog_supported(
            parsed_prog.instructions.deep_view(),
            parsed_prog.orig_lines@.len() as int,
        ),
{
    let ghost instrsv = parsed_prog.instructions.deep_view();
    let mut i: usize = 0;
    let mut ok = true;
    while i < parsed_prog.instructions.len()
        invariant
            i <= parsed_prog.instructions@.len(),
            instrsv == parsed_prog.instructions.deep_view(),
            instrsv.len() == parsed_prog.instructions@.len(),
            ok == (forall|j: int|
                0 <= j < i ==> {
                    let iv = #[trigger] instrsv[j];
                    &&& instr_shapes_supported(iv)
                    &&& instr_lines_ok(iv, parsed_prog.orig_lines@.len() as int)
                    &&& pseudo_size_arg_ok(iv)
                    &&& instr_mem_ops_ok(iv)
                }),
        decreases parsed_prog.instructions@.len() - i,
    {
        proof {
            assert(instrsv[i as int] == (parsed_prog.instructions@[i as int]).deep_view());
        }
        let this_ok = instr_supported_check(
            &parsed_prog.instructions[i],
            parsed_prog.orig_lines.len(),
        );
        ok = ok && this_ok;
        i += 1;
    }
    ok
}

/// The emitter/resolver size-consistency invariant for directives: in a
/// resolved, label-resolved and re-validated program, every directive
/// emits exactly as many bytes as the size the resolver computed for
/// it (for a string store, provided its byte length fits the machine
/// word).
pub proof fn lemma_pseudo_emission_matches_size(
    instrs: Seq<InstrV>,
    rs: Seq<ResolvedV>,
    rs2: Seq<ResolvedV>,
    n_lines: int,
)
    requires
        prog_supported(instrs, n_lines),
        resolve_from(instrs, 0, 0) == Ok::<_, ErrV>(rs),
        resolve_labels_from(rs, 0) == Ok::<_, ErrV>(rs2),
        revalidate_from(rs2, 0) is None,
    ensures
        forall|j: int|
            0 <= j < rs2.len() ==> (match (#[trigger] rs2[j]).desc {
                Some(ChosenV::Pseudo(p)) => {
                    &&& instr_bytes(rs2[j]) is Ok
                    &&& (p.kind is StoreString ==> (instr_bytes(rs2[j])->Ok_0).len()
                        <= usize::MAX ==> (instr_bytes(rs2[j])->Ok_0).len() == rs2[j].size)
                    &&& (!(p.kind is StoreString) ==> (instr_bytes(rs2[j])->Ok_0).len()
                        == rs2[j].size)
                },
                _ => true,
            }),
{
    lemma_resolve_from_addrs(instrs, 0, 0, rs);
    lemma_resolve_from_instrs(instrs, 0, 0, rs);
    assert(rs_addrs_fit(rs));
    lemma_subst_preserves(rs, rs2, 0, n_lines);
    lemma_pipeline_emittable(instrs, rs, rs2, n_lines);

    assert forall|j: int|
        0 <= j < rs2.len() implies (match (#[trigger] rs2[j]).desc {
        Some(ChosenV::Pseudo(p)) => {
            &&& instr_bytes(rs2[j]) is Ok
            &&& (p.kind is StoreString ==> (instr_bytes(rs2[j])->Ok_0).len() <= usize::MAX ==> (
            instr_bytes(rs2[j])->Ok_0).len() == rs2[j].size)
            &&& (!(p.kind is StoreString) ==> (instr_bytes(rs2[j])->Ok_0).len() == rs2[j].size)
        },
        _ => true,
    }) by {
        let a = rs[0 + j];
        let b = rs2[j];
        match b.desc {
            Some(ChosenV::Pseudo(p)) => {
                assert(a.desc == b.desc);
                assert(a.size == b.size);
                assert(pseudo_size_v(p.kind, a.instr, a.addr) == Ok::<_, ErrV>(a.size));
                assert(instr_emittable(b));
                match p.kind {
                    PseudoKind::Origin | PseudoKind::Skip => {
                        assert(instr_bytes(b) == Ok::<_, ErrV>(
                            Seq::new(b.size as nat, |i: int| 0u8),
                        ));
                    },
                    PseudoKind::StoreDword => {
                        assert(pseudo_operand_compat(p.kind, b.instr.item.operands));
                        assert(a.size == 4);
                    },
                    PseudoKind::StoreByte => {
                        assert(pseudo_operand_compat(p.kind, b.instr.item.operands));
                        assert(a.size == 1);
                    },
                    PseudoKind::StoreString => {
                        assert(pseudo_operand_compat(p.kind, b.instr.item.operands));
                        assert(b.instr.item.operands.len() == a.instr.item.operands.len());
                        assert(subst_operand(rs, a.instr.item.operands[0]) == Ok::<_, ErrV>(
                            b.instr.item.operands[0],
                        ));
                        match a.instr.item.operands[0].item {
                            OperandV::String(sv) => {
                                assert(b.instr.item.operands[0] == a.instr.item.operands[0]);
                                assert(a.size == encode_utf8(sv).len() as usize);
                                assert(instr_bytes(b) == Ok::<_, ErrV>(encode_utf8(sv)));
                            },
                            _ => {
                                assert(b.instr.item.operands[0] == a.instr.item.operands[0]);
                                assert(false);
                            },
                        }
                    },
                }
            },
            _ => {},
        }
    }
}

} // verus!
