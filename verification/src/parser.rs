//! The instruction data model the parser produces: operands, instructions,
//! and the parsed program handed to code generation.

use vstd::prelude::*;

use crate::data::AsmError;
use crate::data::ErrV;
use crate::data::Located;
use crate::data::LocatedV;
use crate::data::SourceSpan;
use crate::data::err_matches;
use crate::scanner::Token;
use crate::scanner::TokenLocV;
use crate::scanner::TokenType;
use crate::scanner::TokenV;
use crate::scanner::TokenizedLineV;
use crate::scanner::TokenizedSource;
use crate::strutil::str_eq;
use vstd::string::StrSliceExecFns;
use vstd::string::StringExecFns;

verus! {

/// Type of an instruction operand or memory access sub-operand.
#[derive(Debug)]
pub enum OperandType {
    Register(String),
    Identifier(String),
    Number(i64),
    MemoryNoMath(Box<OperandType>),
    MemoryWithMath { lhs: Box<Operand>, rhs: Box<Operand>, op: char },
    String(String),
}

pub type Operand = Located<OperandType>;

/// The mathematical value of an operand: strings become character
/// sequences, and the sub-operands of a memory access keep their spans.
#[verifier::ext_equal]
pub enum OperandV {
    Register(Seq<char>),
    Identifier(Seq<char>),
    Number(i64),
    MemoryNoMath(Box<OperandV>),
    MemoryWithMath { lhs: Box<LocatedV<OperandV>>, rhs: Box<LocatedV<OperandV>>, op: char },
    String(Seq<char>),
}

pub type OperandLocV = LocatedV<OperandV>;

/// The mathematical value of an operand type, written as a free recursive
/// function so that `deep_view` can delegate to it.
pub open spec fn op_view(o: OperandType) -> OperandV
    decreases o,
{
    match o {
        OperandType::Register(s) => OperandV::Register(s@),
        OperandType::Identifier(s) => OperandV::Identifier(s@),
        OperandType::Number(n) => OperandV::Number(n),
        OperandType::MemoryNoMath(inner) => OperandV::MemoryNoMath(Box::new(op_view(*inner))),
        OperandType::MemoryWithMath { lhs, rhs, op } => OperandV::MemoryWithMath {
            lhs: Box::new(LocatedV { item: op_view(lhs.item), span: lhs.span }),
            rhs: Box::new(LocatedV { item: op_view(rhs.item), span: rhs.span }),
            op: op,
        },
        OperandType::String(s) => OperandV::String(s@),
    }
}

impl DeepView for OperandType {
    type V = OperandV;

    open spec fn deep_view(&self) -> OperandV {
        op_view(*self)
    }
}

/// One line of the program: an optional label, an optional mnemonic
/// (directives are mnemonics that start with `.`), and the operands.
#[derive(Debug)]
pub struct InstrItem {
    pub label: Option<String>,
    pub mnemonic: Option<String>,
    pub operands: Vec<Operand>,
}

pub type Instr = Located<InstrItem>;

/// The mathematical value of an instruction line.
#[verifier::ext_equal]
pub struct InstrItemV {
    pub label: Option<Seq<char>>,
    pub mnemonic: Option<Seq<char>>,
    pub operands: Seq<OperandLocV>,
}

pub type InstrV = LocatedV<InstrItemV>;

impl DeepView for InstrItem {
    type V = InstrItemV;

    open spec fn deep_view(&self) -> InstrItemV {
        InstrItemV {
            label: self.label.deep_view(),
            mnemonic: self.mnemonic.deep_view(),
            operands: self.operands.deep_view(),
        }
    }
}

impl OperandType {
    /// A verified deep copy: the result has the same mathematical value.
    pub fn dup(&self) -> (r: Self)
        ensures
            r.deep_view() == self.deep_view(),
        decreases *self,
    {
        match self {
            OperandType::Register(s) => OperandType::Register(s.clone()),
            OperandType::Identifier(s) => OperandType::Identifier(s.clone()),
            OperandType::Number(n) => OperandType::Number(*n),
            OperandType::MemoryNoMath(inner) => OperandType::MemoryNoMath(Box::new(inner.dup())),
            OperandType::MemoryWithMath { lhs, rhs, op } => OperandType::MemoryWithMath {
                lhs: Box::new(Located { item: lhs.item.dup(), span: lhs.span }),
                rhs: Box::new(Located { item: rhs.item.dup(), span: rhs.span }),
                op: *op,
            },
            OperandType::String(s) => OperandType::String(s.clone()),
        }
    }
}

impl Located<OperandType> {
    /// A verified deep copy of an operand together with its span.
    pub fn dup(&self) -> (r: Self)
        ensures
            r.deep_view() == self.deep_view(),
    {
        Located { item: self.item.dup(), span: self.span }
    }
}

impl InstrItem {
    /// A verified deep copy: the result has the same mathematical value.
    pub fn dup(&self) -> (r: Self)
        ensures
            r.deep_view() == self.deep_view(),
    {
        let label = match &self.label {
            Some(s) => Some(s.clone()),
            None => None,
        };
        let mnemonic = match &self.mnemonic {
            Some(s) => Some(s.clone()),
            None => None,
        };
        let mut operands: Vec<Operand> = Vec::new();
        let mut i: usize = 0;
        while i < self.operands.len()
            invariant
                i <= self.operands.len(),
                operands@.len() == i,
                forall|j: int|
                    0 <= j < i ==> #[trigger] operands@[j].deep_view()
                        == self.operands@[j].deep_view(),
            decreases self.operands.len() - i,
        {
            operands.push(self.operands[i].dup());
            i += 1;
        }
        proof {
            assert(operands.deep_view() =~= self.operands.deep_view());
        }
        InstrItem { label, mnemonic, operands }
    }
}

impl Located<InstrItem> {
    /// A verified deep copy of an instruction together with its span.
    pub fn dup(&self) -> (r: Self)
        ensures
            r.deep_view() == self.deep_view(),
    {
        Located { item: self.item.dup(), span: self.span }
    }
}

/// A fully parsed program: the instruction list, the `.set` variables that
/// were collected (name paired with value, names unique), the label names
/// in order of appearance, and the original source lines for diagnostics.
#[derive(Debug)]
pub struct ParsedProgram {
    pub instructions: Vec<Instr>,
    pub variables: Vec<(String, OperandType)>,
    pub labels: Vec<String>,
    pub orig_lines: Vec<String>,
}

// ---------------------------------------------------------------------
// The operand and line grammar over tokens.
// ---------------------------------------------------------------------
/// The span from the first to the last of a non-empty token group.
pub open spec fn group_span(toks: Seq<TokenLocV>) -> SourceSpan {
    SourceSpan { start: toks[0].span.start, end: toks.last().span.end }
}

/// The operand a token group stands for: a lone identifier, register,
/// string or number; a bracketed number, identifier or register; or a
/// bracketed register with a signed numeric or register offset. Any
/// other group is the bad-operand error.
pub open spec fn parse_operand_v(toks: Seq<TokenLocV>) -> Result<OperandLocV, ErrV> {
    let sp = group_span(toks);
    let bad = Err::<OperandLocV, ErrV>(
        ErrV { msg: "bad operand tokens"@, span: sp, line: sp.start.line },
    );
    if toks.len() == 1 {
        match toks[0].item {
            TokenV::Identifier(id) => Ok(LocatedV { item: OperandV::Identifier(id), span: sp }),
            TokenV::Register(r) => Ok(LocatedV { item: OperandV::Register(r), span: sp }),
            TokenV::String(t) => Ok(LocatedV { item: OperandV::String(t), span: sp }),
            TokenV::Number(n) => Ok(LocatedV { item: OperandV::Number(n), span: sp }),
            _ => bad,
        }
    } else if toks.len() == 3 && (toks[0].item is OpenSqBr) && (toks[2].item is CloseSqBr) {
        match toks[1].item {
            TokenV::Number(n) => Ok(
                LocatedV {
                    item: OperandV::MemoryNoMath(Box::new(OperandV::Number(n))),
                    span: sp,
                },
            ),
            TokenV::Identifier(id) => Ok(
                LocatedV {
                    item: OperandV::MemoryNoMath(Box::new(OperandV::Identifier(id))),
                    span: sp,
                },
            ),
            TokenV::Register(r) => Ok(
                LocatedV {
                    item: OperandV::MemoryNoMath(Box::new(OperandV::Register(r))),
                    span: sp,
                },
            ),
            _ => bad,
        }
    } else if toks.len() == 5 && (toks[0].item is OpenSqBr) && (toks[4].item is CloseSqBr) {
        match (toks[1].item, toks[2].item, toks[3].item) {
            (TokenV::Register(reg), TokenV::ArithmOp(op), TokenV::Number(offset)) => Ok(
                LocatedV {
                    item: OperandV::MemoryWithMath {
                        lhs: Box::new(
                            LocatedV { item: OperandV::Register(reg), span: toks[1].span },
                        ),
                        rhs: Box::new(
                            LocatedV { item: OperandV::Number(offset), span: toks[3].span },
                        ),
                        op: op[0],
                    },
                    span: sp,
                },
            ),
            (TokenV::Register(reg_base), TokenV::ArithmOp(op), TokenV::Register(reg_offset)) => Ok(
                LocatedV {
                    item: OperandV::MemoryWithMath {
                        lhs: Box::new(
                            LocatedV { item: OperandV::Register(reg_base), span: toks[1].span },
                        ),
                        rhs: Box::new(
                            LocatedV {
                                item: OperandV::Register(reg_offset),
                                span: toks[3].span,
                            },
                        ),
                        op: op[0],
                    },
                    span: sp,
                },
            ),
            _ => bad,
        }
    } else {
        bad
    }
}

/// Splits the tokens from position `i` on into comma-separated operand
/// groups; a comma with no tokens before it is the unexpected-comma
/// error, and trailing tokens form a final group.
pub open spec fn split_groups(toks: Seq<TokenLocV>, i: int, current: Seq<TokenLocV>, ln: usize) -> Result<
    Seq<Seq<TokenLocV>>,
    ErrV,
>
    decreases toks.len() - i,
{
    if i < 0 || i >= toks.len() {
        if current.len() > 0 {
            Ok(seq![current])
        } else {
            Ok(Seq::empty())
        }
    } else if toks[i].item is Comma {
        if current.len() == 0 {
            Err(ErrV { msg: "unexpected comma"@, span: toks[i].span, line: ln })
        } else {
            match split_groups(toks, i + 1, Seq::empty(), ln) {
                Ok(gs) => Ok(seq![current] + gs),
                Err(e) => Err(e),
            }
        }
    } else {
        split_groups(toks, i + 1, current.push(toks[i]), ln)
    }
}

/// Parses each operand group in turn; the first bad group wins.
pub open spec fn parse_groups(groups: Seq<Seq<TokenLocV>>, i: int) -> Result<
    Seq<OperandLocV>,
    ErrV,
>
    decreases groups.len() - i,
{
    if i < 0 || i >= groups.len() {
        Ok(Seq::empty())
    } else {
        match parse_operand_v(groups[i]) {
            Err(e) => Err(e),
            Ok(o) => match parse_groups(groups, i + 1) {
                Ok(t) => Ok(seq![o] + t),
                Err(e) => Err(e),
            },
        }
    }
}

/// The instruction a token line stands for: an optional leading
/// `label:`, then an optional mnemonic identifier, then the operand
/// groups. A non-identifier in mnemonic position is the bad-mnemonic
/// error.
pub open spec fn parse_line_v(tl: TokenizedLineV) -> Result<InstrV, ErrV> {
    let toks = tl.tokens;
    let label = if toks.len() >= 2 && (toks[0].item matches TokenV::Identifier(_)) && (
    toks[1].item is Colon) {
        Some(toks[0].item->Identifier_0)
    } else {
        None
    };
    let midx: int = if label is Some {
        2
    } else {
        0
    };
    let mnemonic_check: Result<Option<Seq<char>>, ErrV> = if toks.len() > midx {
        match toks[midx].item {
            TokenV::Identifier(m) => Ok(Some(m)),
            _ => Err(
                ErrV {
                    msg: "invalid instruction mnemonic"@,
                    span: toks[midx].span,
                    line: tl.orig_line_num,
                },
            ),
        }
    } else {
        Ok(None)
    };
    match mnemonic_check {
        Err(e) => Err(e),
        Ok(mnemonic) => {
            let groups: Result<Seq<Seq<TokenLocV>>, ErrV> = if midx + 1 < toks.len() {
                split_groups(toks, midx + 1, Seq::empty(), tl.orig_line_num)
            } else {
                Ok(Seq::empty())
            };
            match groups {
                Err(e) => Err(e),
                Ok(gs) => match parse_groups(gs, 0) {
                    Err(e) => Err(e),
                    Ok(operands) => Ok(
                        LocatedV {
                            item: InstrItemV { label, mnemonic, operands },
                            span: group_span(toks),
                        },
                    ),
                },
            }
        },
    }
}

/// Parses the token lines from position `i` on into instructions,
/// collecting every declared label name in order.
pub open spec fn parse_tokens_v(lines: Seq<TokenizedLineV>, i: int) -> Result<
    (Seq<InstrV>, Seq<Seq<char>>),
    ErrV,
>
    decreases lines.len() - i,
{
    if i < 0 || i >= lines.len() {
        Ok((Seq::empty(), Seq::empty()))
    } else {
        match parse_line_v(lines[i]) {
            Err(e) => Err(e),
            Ok(instr) => match parse_tokens_v(lines, i + 1) {
                Err(e) => Err(e),
                Ok((instrs, labels)) => Ok(
                    (
                        seq![instr] + instrs,
                        match instr.item.label {
                            Some(l) => seq![l] + labels,
                            None => labels,
                        },
                    ),
                ),
            },
        }
    }
}

/// The first entry with the given name in an association list of
/// variables, if any.
pub open spec fn vars_find(vars: Seq<(Seq<char>, OperandV)>, name: Seq<char>) -> Option<OperandV>
    decreases vars.len(),
{
    if vars.len() == 0 {
        None
    } else if vars[0].0 == name {
        Some(vars[0].1)
    } else {
        vars_find(vars.drop_first(), name)
    }
}

/// The name and value a `.set` line defines, against the labels and the
/// variables defined so far: the value of an identifier operand is a
/// known label kept symbolic, or a known variable's value expanded; a
/// number stands for itself.
pub open spec fn parse_setvar_v(
    iv: InstrV,
    labels: Seq<Seq<char>>,
    vars: Seq<(Seq<char>, OperandV)>,
) -> Result<(Seq<char>, OperandV), ErrV> {
    if iv.item.operands.len() != 2 {
        Err(
            ErrV {
                msg: "invalid number of operands, expected 2, got "@ + crate::strutil::dec_str(
                    iv.item.operands.len(),
                ),
                span: iv.span,
                line: iv.span.start.line,
            },
        )
    } else {
        let opd1 = iv.item.operands[0];
        let opd2 = iv.item.operands[1];
        match opd1.item {
            OperandV::Identifier(var_name) => match opd2.item {
                OperandV::Identifier(id_val) => if labels.contains(id_val) {
                    Ok((var_name, opd2.item))
                } else {
                    match vars_find(vars, id_val) {
                        Some(v) => Ok((var_name, v)),
                        None => Err(
                            ErrV {
                                msg: "unknown identifier"@,
                                span: opd2.span,
                                line: opd2.span.start.line,
                            },
                        ),
                    }
                },
                OperandV::Number(_) => Ok((var_name, opd2.item)),
                _ => Err(
                    ErrV {
                        msg: "invalid operand type for variable value"@,
                        span: opd2.span,
                        line: opd2.span.start.line,
                    },
                ),
            },
            _ => Err(
                ErrV {
                    msg: "expected operand of type Identifier"@,
                    span: opd1.span,
                    line: opd1.span.start.line,
                },
            ),
        }
    }
}

/// Whether the instruction is a `.set` line.
pub open spec fn is_set_instr(iv: InstrV) -> bool {
    iv.item.mnemonic matches Some(m) && m == ".set"@
}

/// Walks the instructions from position `i` on: every `.set` line is
/// removed and defines a variable (a name may be defined only once);
/// every other line is kept.
pub open spec fn parse_setvars_v(
    instrs: Seq<InstrV>,
    i: int,
    labels: Seq<Seq<char>>,
    vars: Seq<(Seq<char>, OperandV)>,
) -> Result<(Seq<InstrV>, Seq<(Seq<char>, OperandV)>), ErrV>
    decreases instrs.len() - i,
{
    if i < 0 || i >= instrs.len() {
        Ok((Seq::empty(), vars))
    } else if is_set_instr(instrs[i]) {
        match parse_setvar_v(instrs[i], labels, vars) {
            Err(e) => Err(e),
            Ok((name, value)) => if vars_find(vars, name) is Some {
                Err(
                    ErrV {
                        msg: "variable with this name already exists"@,
                        span: instrs[i].span,
                        line: instrs[i].span.start.line,
                    },
                )
            } else {
                parse_setvars_v(instrs, i + 1, labels, vars.push((name, value)))
            },
        }
    } else {
        match parse_setvars_v(instrs, i + 1, labels, vars) {
            Err(e) => Err(e),
            Ok((kept, vs)) => Ok((seq![instrs[i]] + kept, vs)),
        }
    }
}

/// Rewrites one operand: an identifier that names a known variable
/// becomes that variable's value, under the operand's own span.
pub open spec fn expand_operand_v(o: OperandLocV, vars: Seq<(Seq<char>, OperandV)>) -> OperandLocV {
    match o.item {
        OperandV::Identifier(id) => match vars_find(vars, id) {
            Some(v) => LocatedV { item: v, span: o.span },
            None => o,
        },
        _ => o,
    }
}

/// Rewrites every operand of one instruction.
pub open spec fn expand_instr_v(iv: InstrV, vars: Seq<(Seq<char>, OperandV)>) -> InstrV {
    LocatedV {
        item: InstrItemV {
            label: iv.item.label,
            mnemonic: iv.item.mnemonic,
            operands: Seq::new(
                iv.item.operands.len(),
                |k: int| expand_operand_v(iv.item.operands[k], vars),
            ),
        },
        span: iv.span,
    }
}

/// The whole parse: build instructions and labels from the token lines,
/// collect and remove the `.set` variables, then expand variable
/// references in the remaining instructions.
pub open spec fn parse_v(lines: Seq<TokenizedLineV>) -> Result<
    (Seq<InstrV>, Seq<(Seq<char>, OperandV)>, Seq<Seq<char>>),
    ErrV,
> {
    match parse_tokens_v(lines, 0) {
        Err(e) => Err(e),
        Ok((instrs, labels)) => match parse_setvars_v(instrs, 0, labels, Seq::empty()) {
            Err(e) => Err(e),
            Ok((kept, vars)) => Ok(
                (
                    Seq::new(kept.len(), |k: int| expand_instr_v(kept[k], vars)),
                    vars,
                    labels,
                ),
            ),
        },
    }
}

/// Spans of every token name a line of the original source, every token
/// line is non-empty with a line number that indexes the source, and
/// every arithmetic operator token carries its character.
pub open spec fn tok_lines_ok(lines: Seq<TokenizedLineV>, n_lines: int) -> bool {
    forall|i: int|
        0 <= i < lines.len() ==> {
            let tl = #[trigger] lines[i];
            &&& 1 <= tl.orig_line_num <= n_lines
            &&& tl.tokens.len() >= 1
            &&& forall|k: int|
                0 <= k < tl.tokens.len() ==> {
                    let t = #[trigger] tl.tokens[k];
                    &&& 1 <= t.span.start.line <= n_lines
                    &&& (t.item matches TokenV::ArithmOp(op) ==> op.len() >= 1)
                }
        }
}

/// The same conditions for one group of tokens.
pub open spec fn toks_ok(toks: Seq<TokenLocV>, n_lines: int) -> bool {
    forall|k: int|
        0 <= k < toks.len() ==> {
            let t = #[trigger] toks[k];
            &&& 1 <= t.span.start.line <= n_lines
            &&& (t.item matches TokenV::ArithmOp(op) ==> op.len() >= 1)
        }
}

/// Parses one comma-separated token group into an operand; the result
/// equals [`parse_operand_v`].
fn parse_operand_tokens(operand_tokens: &Vec<Token>, orig_lines: &Vec<String>) -> (r: Result<
    Operand,
    AsmError,
>)
    requires
        operand_tokens@.len() >= 1,
        toks_ok(operand_tokens.deep_view(), orig_lines@.len() as int),
    ensures
        match r {
            Ok(o) => parse_operand_v(operand_tokens.deep_view()) == Ok::<_, ErrV>(o.deep_view()),
            Err(e) => {
                &&& parse_operand_v(operand_tokens.deep_view()) matches Err(ev)
                &&& err_matches(e, ev, orig_lines.deep_view())
            },
        },
{
    let ghost tv = operand_tokens.deep_view();
    proof {
        assert forall|k: int|
            0 <= k < operand_tokens@.len() implies #[trigger] tv[k] == (operand_tokens@[
        k]).deep_view() by {}
        assert(tv[0] == operand_tokens@[0].deep_view());
        assert(tv[tv.len() - 1] == operand_tokens@[operand_tokens@.len() - 1].deep_view());
    }
    let n = operand_tokens.len();
    let operand_span = SourceSpan {
        start: operand_tokens[0].span.start,
        end: operand_tokens[n - 1].span.end,
    };
    let line_num = operand_span.start.line;

    if n == 1 {
        match &operand_tokens[0].item {
            TokenType::Identifier(id_str) => {
                return Ok(Located::new(OperandType::Identifier(id_str.clone()), operand_span));
            },
            TokenType::Register(reg_str) => {
                return Ok(Located::new(OperandType::Register(reg_str.clone()), operand_span));
            },
            TokenType::String(str_val) => {
                return Ok(Located::new(OperandType::String(str_val.clone()), operand_span));
            },
            TokenType::Number(num_val) => {
                return Ok(Located::new(OperandType::Number(*num_val), operand_span));
            },
            _ => {},
        }
    } else if n == 3 && matches!(&operand_tokens[0].item, TokenType::OpenSqBr) && matches!(
        &operand_tokens[2].item,
        TokenType::CloseSqBr,
    ) {
        proof {
            assert(tv[1] == operand_tokens@[1].deep_view());
        }
        match &operand_tokens[1].item {
            TokenType::Number(num_val) => {
                proof {
                    assert(op_view(OperandType::Number(*num_val)) == OperandV::Number(*num_val));
                }
                return Ok(
                    Located::new(
                        OperandType::MemoryNoMath(Box::new(OperandType::Number(*num_val))),
                        operand_span,
                    ),
                );
            },
            TokenType::Identifier(id_str) => {
                let inner = OperandType::Identifier(id_str.clone());
                proof {
                    assert(op_view(inner) == OperandV::Identifier(id_str@));
                }
                return Ok(
                    Located::new(OperandType::MemoryNoMath(Box::new(inner)), operand_span),
                );
            },
            TokenType::Register(reg) => {
                let inner = OperandType::Register(reg.clone());
                proof {
                    assert(op_view(inner) == OperandV::Register(reg@));
                }
                return Ok(
                    Located::new(OperandType::MemoryNoMath(Box::new(inner)), operand_span),
                );
            },
            _ => {},
        }
    } else if n == 5 && matches!(&operand_tokens[0].item, TokenType::OpenSqBr) && matches!(
        &operand_tokens[4].item,
        TokenType::CloseSqBr,
    ) {
        proof {
            assert(tv[1] == operand_tokens@[1].deep_view());
            assert(tv[2] == operand_tokens@[2].deep_view());
            assert(tv[3] == operand_tokens@[3].deep_view());
        }
        match (&operand_tokens[1].item, &operand_tokens[2].item, &operand_tokens[3].item) {
            (TokenType::Register(reg), TokenType::ArithmOp(arithm_op), TokenType::Number(offset)) => {
                let op_char = arithm_op.as_str().get_char(0);
                let lhs_item = OperandType::Register(reg.clone());
                let rhs_item = OperandType::Number(*offset);
                proof {
                    assert(op_view(lhs_item) == OperandV::Register(reg@));
                    assert(op_view(rhs_item) == OperandV::Number(*offset));
                }
                return Ok(
                    Located::new(
                        OperandType::MemoryWithMath {
                            lhs: Box::new(Located::new(lhs_item, operand_tokens[1].span)),
                            rhs: Box::new(Located::new(rhs_item, operand_tokens[3].span)),
                            op: op_char,
                        },
                        operand_span,
                    ),
                );
            },
            (
                TokenType::Register(reg_base),
                TokenType::ArithmOp(arithm_op),
                TokenType::Register(reg_offset),
            ) => {
                let op_char = arithm_op.as_str().get_char(0);
                let lhs_item = OperandType::Register(reg_base.clone());
                let rhs_item = OperandType::Register(reg_offset.clone());
                proof {
                    assert(op_view(lhs_item) == OperandV::Register(reg_base@));
                    assert(op_view(rhs_item) == OperandV::Register(reg_offset@));
                }
                return Ok(
                    Located::new(
                        OperandType::MemoryWithMath {
                            lhs: Box::new(Located::new(lhs_item, operand_tokens[1].span)),
                            rhs: Box::new(Located::new(rhs_item, operand_tokens[3].span)),
                            op: op_char,
                        },
                        operand_span,
                    ),
                );
            },
            _ => {},
        }
    }
    Err(
        AsmError::new(
            "bad operand tokens".to_owned(),
            operand_span,
            orig_lines[line_num - 1].clone(),
        ),
    )
}

/// Parses one token line into an instruction; the result equals
/// [`parse_line_v`].
fn parse_token_line(tok_line: &crate::scanner::TokenizedLine, orig_lines: &Vec<String>) -> (r:
    Result<Instr, AsmError>)
    requires
        tok_line.deep_view().tokens.len() >= 1,
        1 <= tok_line.deep_view().orig_line_num <= orig_lines@.len(),
        toks_ok(tok_line.deep_view().tokens, orig_lines@.len() as int),
    ensures
        match r {
            Ok(instr) => parse_line_v(tok_line.deep_view()) == Ok::<_, ErrV>(instr.deep_view()),
            Err(e) => {
                &&& parse_line_v(tok_line.deep_view()) matches Err(ev)
                &&& err_matches(e, ev, orig_lines.deep_view())
            },
        },
{
    let ghost tlv = tok_line.deep_view();
    let ghost toksv = tlv.tokens;
    let toks: &Vec<Token> = &tok_line.tokens;
    let n = toks.len();
    proof {
        assert forall|k: int|
            0 <= k < toks@.len() implies #[trigger] toksv[k] == (toks@[k]).deep_view() by {}
    }
    let ln = tok_line.orig_line_num;

    let label: Option<String> = if n >= 2 && matches!(&toks[0].item, TokenType::Identifier(_))
        && matches!(&toks[1].item, TokenType::Colon) {
        match &toks[0].item {
            TokenType::Identifier(label_name) => Some(label_name.clone()),
            _ => vstd::pervasive::unreached(),
        }
    } else {
        None
    };

    let mnemonic_idx: usize = if label.is_some() {
        2
    } else {
        0
    };
    let mut mnemonic: Option<String> = None;
    if n > mnemonic_idx {
        match &toks[mnemonic_idx].item {
            TokenType::Identifier(mnemonic_val) => {
                mnemonic = Some(mnemonic_val.clone());
            },
            _ => {
                return Err(
                    AsmError::new(
                        "invalid instruction mnemonic".to_owned(),
                        toks[mnemonic_idx].span,
                        orig_lines[ln - 1].clone(),
                    ),
                );
            },
        }
    }
    let ghost gspec = if mnemonic_idx + 1 < n {
        split_groups(toksv, mnemonic_idx + 1, Seq::<TokenLocV>::empty(), ln)
    } else {
        Ok(Seq::<Seq<TokenLocV>>::empty())
    };
    proof {
        assert(parse_line_v(tlv) == (match gspec {
            Err(e) => Err::<InstrV, ErrV>(e),
            Ok(gs) => match parse_groups(gs, 0) {
                Err(e) => Err(e),
                Ok(ops) => Ok(
                    LocatedV {
                        item: InstrItemV {
                            label: label.deep_view(),
                            mnemonic: mnemonic.deep_view(),
                            operands: ops,
                        },
                        span: group_span(toksv),
                    },
                ),
            },
        }));
    }

    let mut operands: Vec<Operand> = Vec::new();
    let mut groups: Vec<Vec<Token>> = Vec::new();
    if mnemonic_idx + 1 < n {
        let mut curr: Vec<Token> = Vec::new();
        proof {
            assert(curr.deep_view() =~= Seq::<TokenLocV>::empty());
            assert(groups.deep_view() =~~= Seq::<Seq<TokenLocV>>::empty());
            match gspec {
                Ok(gs) => {
                    assert(Seq::<Seq<TokenLocV>>::empty() + gs =~~= gs);
                },
                Err(_) => {},
            }
        }
        let mut i: usize = mnemonic_idx + 1;
        while i < n
            invariant
                mnemonic_idx + 1 <= i <= n,
                n == toks@.len(),
                toksv.len() == toks@.len(),
                toks == &tok_line.tokens,
                toksv == tok_line.deep_view().tokens,
                tlv == tok_line.deep_view(),
                ln == tlv.orig_line_num,
                1 <= ln <= orig_lines@.len(),
                toks_ok(toksv, orig_lines@.len() as int),
                forall|k: int| 0 <= k < toks@.len() ==> #[trigger] toksv[k] == (toks@[k]).deep_view(),
                gspec == split_groups(toksv, mnemonic_idx + 1, Seq::<TokenLocV>::empty(), ln),
                gspec matches Err(e) ==> parse_line_v(tlv) == Err::<InstrV, ErrV>(e),
                toks_ok(curr.deep_view(), orig_lines@.len() as int),
                forall|w: int| 0 <= w < groups.deep_view().len() ==> (#[trigger] groups.deep_view()[w]).len() >= 1,
                forall|w: int|
                    0 <= w < groups.deep_view().len() ==> toks_ok(
                        #[trigger] groups.deep_view()[w],
                        orig_lines@.len() as int,
                    ),
                match split_groups(toksv, i as int, curr.deep_view(), ln) {
                    Ok(gs) => gspec == Ok::<_, ErrV>(groups.deep_view() + gs),
                    Err(e) => gspec == Err::<Seq<Seq<TokenLocV>>, _>(e),
                },
            decreases n - i,
        {
            if matches!(&toks[i].item, TokenType::Comma) {
                if curr.len() == 0 {
                    proof {
                        assert(curr.deep_view() =~= Seq::<TokenLocV>::empty());
                    }
                    return Err(
                        AsmError::new(
                            "unexpected comma".to_owned(),
                            toks[i].span,
                            orig_lines[ln - 1].clone(),
                        ),
                    );
                }
                let ghost prevg = groups.deep_view();
                let ghost cv = curr.deep_view();
                groups.push(curr);
                proof {
                    assert(cv.len() > 0);
                    assert(groups.deep_view() =~~= prevg + seq![cv]) by {
                        assert forall|w: int|
                            0 <= w < groups@.len() implies (#[trigger] groups@[w]).deep_view()
                            =~= (prevg + seq![cv])[w] by {
                            if w < prevg.len() {
                                assert(groups@[w] == groups@.take(groups@.len() - 1)[w]);
                            } else {
                                assert(groups@[w] == groups@.last());
                            }
                        }
                    }
                    match split_groups(toksv, i + 1, Seq::<TokenLocV>::empty(), ln) {
                        Ok(gs) => {
                            assert(prevg + (seq![cv] + gs) =~~= (prevg + seq![cv]) + gs);
                        },
                        Err(_) => {},
                    }
                }
                curr = Vec::new();
                proof {
                    assert(curr.deep_view() =~= Seq::<TokenLocV>::empty());
                }
            } else {
                let ghost prevc = curr.deep_view();
                let t = toks[i].dup();
                curr.push(t);
                proof {
                    assert(curr.deep_view() =~= prevc.push(toksv[i as int])) by {
                        assert forall|w: int|
                            0 <= w < curr@.len() implies (#[trigger] curr@[w]).deep_view() == (
                        prevc.push(toksv[i as int]))[w] by {
                            if w < prevc.len() {
                                assert(curr@[w] == curr@.take(curr@.len() - 1)[w]);
                            } else {
                                assert(curr@[w] == curr@.last());
                            }
                        }
                    }
                }
            }
            i += 1;
        }
        if curr.len() > 0 {
            let ghost prevg = groups.deep_view();
            let ghost cv = curr.deep_view();
            groups.push(curr);
            proof {
                assert(groups.deep_view() =~~= prevg + seq![cv]) by {
                    assert forall|w: int|
                        0 <= w < groups@.len() implies (#[trigger] groups@[w]).deep_view() =~= (
                    prevg + seq![cv])[w] by {
                        if w < prevg.len() {
                            assert(groups@[w] == groups@.take(groups@.len() - 1)[w]);
                        } else {
                            assert(groups@[w] == groups@.last());
                        }
                    }
                }
                assert(split_groups(toksv, n as int, cv, ln) == Ok::<_, ErrV>(seq![cv]));
            }
        } else {
            proof {
                assert(curr.deep_view() =~= Seq::<TokenLocV>::empty());
                assert(split_groups(toksv, n as int, Seq::<TokenLocV>::empty(), ln) == Ok::<
                    _,
                    ErrV,
                >(Seq::<Seq<TokenLocV>>::empty()));
                match gspec {
                    Ok(gs) => {
                        assert(groups.deep_view() + Seq::<Seq<TokenLocV>>::empty()
                            =~~= groups.deep_view());
                    },
                    Err(_) => {},
                }
            }
        }
    } else {
        proof {
            assert(groups.deep_view() =~~= Seq::<Seq<TokenLocV>>::empty());
        }
    }

    let ghost groupsv = groups.deep_view();
    proof {
        assert(gspec == Ok::<_, ErrV>(groupsv));
        assert(parse_groups(groupsv, 0) == (match parse_groups(groupsv, 0) {
            Err(e) => Err::<Seq<OperandLocV>, ErrV>(e),
            Ok(ops) => Ok(ops),
        }));
        assert(operands.deep_view() =~= Seq::<OperandLocV>::empty());
    }
    let mut g: usize = 0;
    while g < groups.len()
        invariant
            g <= groups@.len(),
            groupsv == groups.deep_view(),
            groupsv.len() == groups@.len(),
            1 <= ln <= orig_lines@.len(),
            tlv == tok_line.deep_view(),
            gspec == Ok::<_, ErrV>(groupsv),
            parse_line_v(tlv) == (match parse_groups(groupsv, 0) {
                Err(e) => Err::<InstrV, ErrV>(e),
                Ok(ops) => Ok(
                    LocatedV {
                        item: InstrItemV {
                            label: label.deep_view(),
                            mnemonic: mnemonic.deep_view(),
                            operands: ops,
                        },
                        span: group_span(toksv),
                    },
                ),
            }),
            forall|w: int| 0 <= w < groupsv.len() ==> (#[trigger] groupsv[w]).len() >= 1,
            forall|w: int|
                0 <= w < groupsv.len() ==> toks_ok(#[trigger] groupsv[w], orig_lines@.len() as int),
            match parse_groups(groupsv, g as int) {
                Ok(t) => parse_groups(groupsv, 0) == Ok::<_, ErrV>(operands.deep_view() + t),
                Err(e) => parse_groups(groupsv, 0) == Err::<Seq<OperandLocV>, _>(e),
            },
        decreases groups@.len() - g,
    {
        proof {
            assert(groupsv[g as int] == (groups@[g as int]).deep_view());
        }
        let o = match parse_operand_tokens(&groups[g], orig_lines) {
            Ok(o) => o,
            Err(e) => {
                return Err(e);
            },
        };
        let ghost prevo = operands.deep_view();
        let ghost ov = o.deep_view();
        operands.push(o);
        proof {
            assert(operands.deep_view() =~= prevo + seq![ov]) by {
                assert forall|w: int|
                    0 <= w < operands@.len() implies (#[trigger] operands@[w]).deep_view() == (prevo
                    + seq![ov])[w] by {
                    if w < prevo.len() {
                        assert(operands@[w] == operands@.take(operands@.len() - 1)[w]);
                    } else {
                        assert(operands@[w] == operands@.last());
                    }
                }
            }
            match parse_groups(groupsv, g + 1) {
                Ok(t) => {
                    assert(prevo + (seq![ov] + t) =~= (prevo + seq![ov]) + t);
                },
                Err(_) => {},
            }
        }
        g += 1;
    }
    proof {
        assert(parse_groups(groupsv, g as int) == Ok::<_, ErrV>(Seq::<OperandLocV>::empty()));
        assert(operands.deep_view() + Seq::<OperandLocV>::empty() =~= operands.deep_view());
    }

    let instr_span = SourceSpan { start: toks[0].span.start, end: toks[n - 1].span.end };
    proof {
        assert(toksv[0] == toks@[0].deep_view());
        assert(toksv[toksv.len() - 1] == toks@[toks@.len() - 1].deep_view());
    }
    Ok(Located::new(InstrItem { label, mnemonic, operands }, instr_span))
}

/// Parses every token line, collecting declared labels in order; the
/// result equals [`parse_tokens_v`] at position 0.
fn parse_tokens(lines: &Vec<crate::scanner::TokenizedLine>, orig_lines: &Vec<String>) -> (r:
    Result<(Vec<Instr>, Vec<String>), AsmError>)
    requires
        tok_lines_ok(lines.deep_view(), orig_lines@.len() as int),
    ensures
        match r {
            Ok(p) => parse_tokens_v(lines.deep_view(), 0) == Ok::<_, ErrV>(
                (p.0.deep_view(), p.1.deep_view()),
            ),
            Err(e) => {
                &&& parse_tokens_v(lines.deep_view(), 0) matches Err(ev)
                &&& err_matches(e, ev, orig_lines.deep_view())
            },
        },
{
    let ghost linesv = lines.deep_view();
    let mut instructions: Vec<Instr> = Vec::new();
    let mut labels: Vec<String> = Vec::new();
    let mut i: usize = 0;
    while i < lines.len()
        invariant
            i <= lines@.len(),
            linesv == lines.deep_view(),
            linesv.len() == lines@.len(),
            tok_lines_ok(linesv, orig_lines@.len() as int),
            match parse_tokens_v(linesv, i as int) {
                Ok(t) => parse_tokens_v(linesv, 0) == Ok::<_, ErrV>(
                    (instructions.deep_view() + t.0, labels.deep_view() + t.1),
                ),
                Err(e) => parse_tokens_v(linesv, 0) == Err::<(Seq<InstrV>, Seq<Seq<char>>), _>(e),
            },
        decreases lines@.len() - i,
    {
        proof {
            assert(linesv[i as int] == (lines@[i as int]).deep_view());
        }
        let instr = match parse_token_line(&lines[i], orig_lines) {
            Ok(instr) => instr,
            Err(e) => {
                return Err(e);
            },
        };
        let ghost prevl = labels.deep_view();
        match &instr.item.label {
            Some(l) => {
                let ghost lv = l@;
                labels.push(l.clone());
                proof {
                    assert(labels.deep_view() =~= prevl + seq![lv]) by {
                        assert forall|w: int|
                            0 <= w < labels@.len() implies (#[trigger] labels@[w]).deep_view() == (
                        prevl + seq![lv])[w] by {
                            if w < prevl.len() {
                                assert(labels@[w] == labels@.take(labels@.len() - 1)[w]);
                            } else {
                                assert(labels@[w] == labels@.last());
                            }
                        }
                    }
                }
            },
            None => {},
        }
        let ghost previ = instructions.deep_view();
        let ghost iv = instr.deep_view();
        instructions.push(instr);
        proof {
            assert(instructions.deep_view() =~= previ + seq![iv]) by {
                assert forall|w: int|
                    0 <= w < instructions@.len() implies (#[trigger] instructions@[
                w]).deep_view() == (previ + seq![iv])[w] by {
                    if w < previ.len() {
                        assert(instructions@[w] == instructions@.take(instructions@.len() - 1)[w]);
                    } else {
                        assert(instructions@[w] == instructions@.last());
                    }
                }
            }
            match parse_tokens_v(linesv, i + 1) {
                Ok(t) => {
                    assert(previ + (seq![iv] + t.0) =~= (previ + seq![iv]) + t.0);
                    match iv.item.label {
                        Some(lv2) => {
                            assert(prevl + (seq![lv2] + t.1) =~= (prevl + seq![lv2]) + t.1);
                        },
                        None => {},
                    }
                },
                Err(_) => {},
            }
        }
        i += 1;
    }
    proof {
        assert(parse_tokens_v(linesv, i as int) == Ok::<_, ErrV>(
            (Seq::<InstrV>::empty(), Seq::<Seq<char>>::empty()),
        ));
        assert(instructions.deep_view() + Seq::<InstrV>::empty() =~= instructions.deep_view());
        assert(labels.deep_view() + Seq::<Seq<char>>::empty() =~= labels.deep_view());
    }
    Ok((instructions, labels))
}

/// The first variable with the given name, as an index.
fn vars_find_exec(vars: &Vec<(String, OperandType)>, name: &str) -> (r: Option<usize>)
    ensures
        match r {
            Some(k) => k < vars@.len() && vars_find(vars.deep_view(), name@) == Some(
                vars.deep_view()[k as int].1,
            ),
            None => vars_find(vars.deep_view(), name@) is None,
        },
{
    let ghost vdv = vars.deep_view();
    let mut i: usize = 0;
    while i < vars.len()
        invariant
            i <= vars@.len(),
            vdv == vars.deep_view(),
            vdv.len() == vars@.len(),
            forall|j: int| 0 <= j < i ==> (#[trigger] vdv[j]).0 != name@,
        decreases vars@.len() - i,
    {
        proof {
            assert(vdv[i as int] == (vars@[i as int]).deep_view());
        }
        if str_eq(vars[i].0.as_str(), name) {
            proof {
                lemma_vars_find_at(vdv, name@, i as int);
            }
            return Some(i);
        }
        i += 1;
    }
    proof {
        lemma_vars_find_none(vdv, name@);
    }
    None
}

/// The first matching entry decides an association-list lookup.
proof fn lemma_vars_find_at(vars: Seq<(Seq<char>, OperandV)>, name: Seq<char>, k: int)
    requires
        0 <= k < vars.len(),
        vars[k].0 == name,
        forall|j: int| 0 <= j < k ==> (#[trigger] vars[j]).0 != name,
    ensures
        vars_find(vars, name) == Some(vars[k].1),
    decreases k,
{
    if k > 0 {
        assert forall|j: int| 0 <= j < k - 1 implies (#[trigger] vars.drop_first()[j]).0 != name by {
            assert(vars.drop_first()[j] == vars[j + 1]);
        }
        lemma_vars_find_at(vars.drop_first(), name, k - 1);
    }
}

/// A name in no entry is found in no association list.
proof fn lemma_vars_find_none(vars: Seq<(Seq<char>, OperandV)>, name: Seq<char>)
    requires
        forall|j: int| 0 <= j < vars.len() ==> (#[trigger] vars[j]).0 != name,
    ensures
        vars_find(vars, name) is None,
    decreases vars.len(),
{
    if vars.len() > 0 {
        assert forall|j: int|
            0 <= j < vars.drop_first().len() implies (#[trigger] vars.drop_first()[j]).0 != name by {
            assert(vars.drop_first()[j] == vars[j + 1]);
        }
        lemma_vars_find_none(vars.drop_first(), name);
    }
}

/// Whether a label list contains the name.
fn labels_contain(labels: &Vec<String>, name: &str) -> (r: bool)
    ensures
        r == labels.deep_view().contains(name@),
{
    let ghost ldv = labels.deep_view();
    let mut i: usize = 0;
    while i < labels.len()
        invariant
            i <= labels@.len(),
            ldv == labels.deep_view(),
            ldv.len() == labels@.len(),
            forall|j: int| 0 <= j < i ==> (#[trigger] ldv[j]) != name@,
        decreases labels@.len() - i,
    {
        proof {
            assert(ldv[i as int] == (labels@[i as int]).deep_view());
        }
        if str_eq(labels[i].as_str(), name) {
            return true;
        }
        i += 1;
    }
    false
}

/// Parses one `.set` line into a variable name and value; the result
/// equals [`parse_setvar_v`].
fn parse_setvar(
    instr: &Instr,
    labels: &Vec<String>,
    vars: &Vec<(String, OperandType)>,
    orig_lines: &Vec<String>,
) -> (r: Result<(String, OperandType), AsmError>)
    requires
        is_set_instr(instr.deep_view()),
        crate::codegen::instr_lines_ok(instr.deep_view(), orig_lines@.len() as int),
    ensures
        match r {
            Ok(p) => parse_setvar_v(instr.deep_view(), labels.deep_view(), vars.deep_view())
                == Ok::<_, ErrV>((p.0@, p.1.deep_view())),
            Err(e) => {
                &&& parse_setvar_v(
                    instr.deep_view(),
                    labels.deep_view(),
                    vars.deep_view(),
                ) matches Err(ev)
                &&& err_matches(e, ev, orig_lines.deep_view())
            },
        },
{
    let ghost iv = instr.deep_view();
    if instr.item.operands.len() != 2 {
        let mut msg = "invalid number of operands, expected 2, got ".to_owned();
        let dec = crate::strutil::u64_dec_string(instr.item.operands.len() as u64);
        msg.append(dec.as_str());
        return Err(
            AsmError::new(msg, instr.span, orig_lines[instr.span.start.line - 1].clone()),
        );
    }
    proof {
        assert(iv.item.operands[0] == (instr.item.operands@[0]).deep_view());
        assert(iv.item.operands[1] == (instr.item.operands@[1]).deep_view());
        assert(crate::codegen::operand_lines_ok(iv.item.operands[0], orig_lines@.len() as int));
        assert(crate::codegen::operand_lines_ok(iv.item.operands[1], orig_lines@.len() as int));
    }
    let opd1 = &instr.item.operands[0];
    let opd2 = &instr.item.operands[1];

    match &opd1.item {
        OperandType::Identifier(var_name) => {
            proof {
                assert(op_view(opd1.item) == OperandV::Identifier(var_name@));
            }
            match &opd2.item {
                OperandType::Identifier(id_val) => {
                    proof {
                        assert(op_view(opd2.item) == OperandV::Identifier(id_val@));
                    }
                    if labels_contain(labels, id_val.as_str()) {
                        Ok((var_name.clone(), opd2.item.dup()))
                    } else {
                        match vars_find_exec(vars, id_val.as_str()) {
                            Some(k) => {
                                proof {
                                    assert(vars.deep_view()[k as int] == (vars@[
                                        k as int
                                    ]).deep_view());
                                }
                                Ok((var_name.clone(), vars[k].1.dup()))
                            },
                            None => Err(
                                AsmError::new(
                                    "unknown identifier".to_owned(),
                                    opd2.span,
                                    orig_lines[opd2.span.start.line - 1].clone(),
                                ),
                            ),
                        }
                    }
                },
                OperandType::Number(n) => {
                    proof {
                        assert(op_view(opd2.item) == OperandV::Number(*n));
                    }
                    Ok((var_name.clone(), OperandType::Number(*n)))
                },
                _ => {
                    proof {
                        assert(!(op_view(opd2.item) matches OperandV::Identifier(_)) && !(op_view(
                            opd2.item,
                        ) matches OperandV::Number(_)));
                    }
                    Err(
                        AsmError::new(
                            "invalid operand type for variable value".to_owned(),
                            opd2.span,
                            orig_lines[opd2.span.start.line - 1].clone(),
                        ),
                    )
                },
            }
        },
        _ => {
            proof {
                assert(!(op_view(opd1.item) matches OperandV::Identifier(_)));
            }
            Err(
                AsmError::new(
                    "expected operand of type Identifier".to_owned(),
                    opd1.span,
                    orig_lines[opd1.span.start.line - 1].clone(),
                ),
            )
        },
    }
}

/// Collects and removes every `.set` line; the result equals
/// [`parse_setvars_v`] at position 0 with no variables defined yet.
fn parse_setvars(
    instructions: Vec<Instr>,
    labels: &Vec<String>,
    orig_lines: &Vec<String>,
) -> (r: Result<(Vec<Instr>, Vec<(String, OperandType)>), AsmError>)
    requires
        forall|j: int|
            0 <= j < instructions.deep_view().len() ==> crate::codegen::instr_lines_ok(
                #[trigger] instructions.deep_view()[j],
                orig_lines@.len() as int,
            ),
    ensures
        match r {
            Ok(p) => parse_setvars_v(instructions.deep_view(), 0, labels.deep_view(), Seq::empty())
                == Ok::<_, ErrV>((p.0.deep_view(), p.1.deep_view())),
            Err(e) => {
                &&& parse_setvars_v(
                    instructions.deep_view(),
                    0,
                    labels.deep_view(),
                    Seq::empty(),
                ) matches Err(ev)
                &&& err_matches(e, ev, orig_lines.deep_view())
            },
        },
{
    let ghost allv = instructions.deep_view();
    let ghost labelsv = labels.deep_view();
    let mut kept: Vec<Instr> = Vec::new();
    let mut variables: Vec<(String, OperandType)> = Vec::new();
    proof {
        assert(variables.deep_view() =~= Seq::<(Seq<char>, OperandV)>::empty());
    }
    let mut i: usize = 0;
    while i < instructions.len()
        invariant
            i <= instructions@.len(),
            allv == instructions.deep_view(),
            allv.len() == instructions@.len(),
            labelsv == labels.deep_view(),
            forall|j: int|
                0 <= j < allv.len() ==> crate::codegen::instr_lines_ok(
                    #[trigger] allv[j],
                    orig_lines@.len() as int,
                ),
            match parse_setvars_v(allv, i as int, labelsv, variables.deep_view()) {
                Ok(t) => parse_setvars_v(allv, 0, labelsv, Seq::empty()) == Ok::<_, ErrV>(
                    (kept.deep_view() + t.0, t.1),
                ),
                Err(e) => parse_setvars_v(allv, 0, labelsv, Seq::empty()) == Err::<
                    (Seq<InstrV>, Seq<(Seq<char>, OperandV)>),
                    _,
                >(e),
            },
        decreases instructions@.len() - i,
    {
        proof {
            assert(allv[i as int] == (instructions@[i as int]).deep_view());
        }
        let instr = &instructions[i];
        let is_set = match &instr.item.mnemonic {
            Some(m) => str_eq(m.as_str(), ".set"),
            None => false,
        };
        proof {
            assert(is_set == is_set_instr(allv[i as int]));
        }
        if is_set {
            let (var_name, var_value) = match parse_setvar(instr, labels, &variables, orig_lines) {
                Ok(p) => p,
                Err(e) => {
                    return Err(e);
                },
            };
            match vars_find_exec(&variables, var_name.as_str()) {
                Some(_) => {
                    return Err(
                        AsmError::new(
                            "variable with this name already exists".to_owned(),
                            instr.span,
                            orig_lines[instr.span.start.line - 1].clone(),
                        ),
                    );
                },
                None => {},
            }
            let entry = (var_name, var_value);
            let ghost prevv = variables.deep_view();
            let ghost ev = entry.deep_view();
            variables.push(entry);
            proof {
                assert(variables.deep_view() =~= prevv.push(ev)) by {
                    assert forall|w: int|
                        0 <= w < variables@.len() implies (#[trigger] variables@[w]).deep_view()
                        == prevv.push(ev)[w] by {
                        if w < prevv.len() {
                            assert(variables@[w] == variables@.take(variables@.len() - 1)[w]);
                        } else {
                            assert(variables@[w] == variables@.last());
                        }
                    }
                }
            }
        } else {
            let ghost prevk = kept.deep_view();
            let ghost kv = allv[i as int];
            let k2 = instr.dup();
            kept.push(k2);
            proof {
                assert(kept.deep_view() =~= prevk + seq![kv]) by {
                    assert forall|w: int|
                        0 <= w < kept@.len() implies (#[trigger] kept@[w]).deep_view() == (prevk
                        + seq![kv])[w] by {
                        if w < prevk.len() {
                            assert(kept@[w] == kept@.take(kept@.len() - 1)[w]);
                        } else {
                            assert(kept@[w] == kept@.last());
                        }
                    }
                }
                match parse_setvars_v(allv, i + 1, labelsv, variables.deep_view()) {
                    Ok(t) => {
                        assert(prevk + (seq![kv] + t.0) =~= (prevk + seq![kv]) + t.0);
                    },
                    Err(_) => {},
                }
            }
        }
        i += 1;
    }
    proof {
        assert(parse_setvars_v(allv, i as int, labelsv, variables.deep_view()) == Ok::<_, ErrV>(
            (Seq::<InstrV>::empty(), variables.deep_view()),
        ));
        assert(kept.deep_view() + Seq::<InstrV>::empty() =~= kept.deep_view());
    }
    Ok((kept, variables))
}

/// Expands variable references: an identifier operand that names a
/// known variable becomes that variable's value, keeping its span. The
/// result equals [`expand_instr_v`] applied to every instruction.
fn expand_vars(instructions: Vec<Instr>, variables: &Vec<(String, OperandType)>) -> (r: Vec<Instr>)
    ensures
        r.deep_view() == Seq::new(
            instructions.deep_view().len(),
            |k: int| expand_instr_v(instructions.deep_view()[k], variables.deep_view()),
        ),
{
    let ghost allv = instructions.deep_view();
    let ghost varsv = variables.deep_view();
    let mut out: Vec<Instr> = Vec::new();
    let mut i: usize = 0;
    while i < instructions.len()
        invariant
            i <= instructions@.len(),
            allv == instructions.deep_view(),
            allv.len() == instructions@.len(),
            varsv == variables.deep_view(),
            out@.len() == i,
            forall|j: int|
                0 <= j < i ==> (#[trigger] out@[j]).deep_view() == expand_instr_v(allv[j], varsv),
        decreases instructions@.len() - i,
    {
        proof {
            assert(allv[i as int] == (instructions@[i as int]).deep_view());
        }
        let instr = &instructions[i];
        let mut operands: Vec<Operand> = Vec::new();
        let mut k: usize = 0;
        while k < instr.item.operands.len()
            invariant
                k <= instr.item.operands@.len(),
                i < instructions@.len(),
                instr == &instructions@[i as int],
                allv[i as int] == (instructions@[i as int]).deep_view(),
                allv.len() == instructions@.len(),
                varsv == variables.deep_view(),
                allv[i as int].item.operands.len() == instr.item.operands@.len(),
                operands@.len() == k,
                forall|w: int|
                    0 <= w < k ==> (#[trigger] operands@[w]).deep_view() == expand_operand_v(
                        allv[i as int].item.operands[w],
                        varsv,
                    ),
            decreases instr.item.operands@.len() - k,
        {
            proof {
                assert(allv[i as int].item.operands[k as int] == (instr.item.operands@[
                    k as int
                ]).deep_view());
            }
            let op = &instr.item.operands[k];
            let new_op: Operand = match &op.item {
                OperandType::Identifier(id_val) => {
                    proof {
                        assert(op_view(op.item) == OperandV::Identifier(id_val@));
                    }
                    match vars_find_exec(variables, id_val.as_str()) {
                        Some(w) => {
                            proof {
                                assert(varsv[w as int] == (variables@[w as int]).deep_view());
                            }
                            Located { item: variables[w].1.dup(), span: op.span }
                        },
                        None => op.dup(),
                    }
                },
                _ => {
                    proof {
                        assert(!(op_view(op.item) matches OperandV::Identifier(_)));
                    }
                    op.dup()
                },
            };
            operands.push(new_op);
            k += 1;
        }
        let new_instr = Located {
            item: InstrItem {
                label: match &instr.item.label {
                    Some(l) => Some(l.clone()),
                    None => None,
                },
                mnemonic: match &instr.item.mnemonic {
                    Some(m) => Some(m.clone()),
                    None => None,
                },
                operands,
            },
            span: instr.span,
        };
        proof {
            assert(new_instr.deep_view() =~~= expand_instr_v(allv[i as int], varsv)) by {
                assert forall|w: int|
                    0 <= w < new_instr.deep_view().item.operands.len() implies #[trigger] new_instr.deep_view().item.operands[w]
                    == expand_instr_v(allv[i as int], varsv).item.operands[w] by {
                    assert(new_instr.deep_view().item.operands[w] == (new_instr.item.operands@[
                        w
                    ]).deep_view());
                }
            }
        }
        out.push(new_instr);
        i += 1;
    }
    proof {
        assert(out.deep_view() =~= Seq::new(
            allv.len(),
            |k: int| expand_instr_v(allv[k], varsv),
        ));
    }
    out
}

/// Every group a split produces is non-empty and keeps the token
/// conditions.
proof fn lemma_split_groups_props(
    toks: Seq<TokenLocV>,
    i: int,
    cur: Seq<TokenLocV>,
    ln: usize,
    gs: Seq<Seq<TokenLocV>>,
    n: int,
)
    requires
        split_groups(toks, i, cur, ln) == Ok::<_, ErrV>(gs),
        toks_ok(toks, n),
        toks_ok(cur, n),
    ensures
        forall|w: int| 0 <= w < gs.len() ==> (#[trigger] gs[w]).len() >= 1,
        forall|w: int| 0 <= w < gs.len() ==> toks_ok(#[trigger] gs[w], n),
    decreases toks.len() - i,
{
    if i < 0 || i >= toks.len() {
    } else if toks[i].item is Comma {
        if cur.len() > 0 {
            match split_groups(toks, i + 1, Seq::empty(), ln) {
                Ok(rest) => {
                    lemma_split_groups_props(toks, i + 1, Seq::empty(), ln, rest, n);
                    assert forall|w: int|
                        0 <= w < gs.len() implies (#[trigger] gs[w]).len() >= 1 && toks_ok(
                        gs[w],
                        n,
                    ) by {
                        if w > 0 {
                            assert(gs[w] == rest[w - 1]);
                        }
                    }
                },
                Err(_) => {},
            }
        }
    } else {
        assert(toks_ok(cur.push(toks[i]), n)) by {
            assert forall|w: int| 0 <= w < cur.len() + 1 implies {
                let t = #[trigger] cur.push(toks[i])[w];
                &&& 1 <= t.span.start.line <= n
                &&& (t.item matches TokenV::ArithmOp(op) ==> op.len() >= 1)
            } by {
                if w < cur.len() {
                    assert(cur.push(toks[i])[w] == cur[w]);
                } else {
                    assert(cur.push(toks[i])[w] == toks[i]);
                }
            }
        }
        lemma_split_groups_props(toks, i + 1, cur.push(toks[i]), ln, gs, n);
    }
}

/// A parsed operand's spans all point into the source lines.
proof fn lemma_parse_operand_lines(toks: Seq<TokenLocV>, o: OperandLocV, n: int)
    requires
        parse_operand_v(toks) == Ok::<_, ErrV>(o),
        toks.len() >= 1,
        toks_ok(toks, n),
    ensures
        crate::codegen::operand_lines_ok(o, n),
{
}

/// Every operand of a parsed group list has spans into the source.
proof fn lemma_parse_groups_lines(gs: Seq<Seq<TokenLocV>>, i: int, ops: Seq<OperandLocV>, n: int)
    requires
        parse_groups(gs, i) == Ok::<_, ErrV>(ops),
        forall|w: int| 0 <= w < gs.len() ==> (#[trigger] gs[w]).len() >= 1,
        forall|w: int| 0 <= w < gs.len() ==> toks_ok(#[trigger] gs[w], n),
    ensures
        forall|w: int| 0 <= w < ops.len() ==> crate::codegen::operand_lines_ok(#[trigger] ops[w], n),
    decreases gs.len() - i,
{
    if 0 <= i < gs.len() {
        match parse_operand_v(gs[i]) {
            Ok(o) => {
                lemma_parse_operand_lines(gs[i], o, n);
                match parse_groups(gs, i + 1) {
                    Ok(t) => {
                        lemma_parse_groups_lines(gs, i + 1, t, n);
                        assert forall|w: int|
                            0 <= w < ops.len() implies crate::codegen::operand_lines_ok(
                            #[trigger] ops[w],
                            n,
                        ) by {
                            if w > 0 {
                                assert(ops[w] == t[w - 1]);
                            }
                        }
                    },
                    Err(_) => {},
                }
            },
            Err(_) => {},
        }
    }
}

/// A parsed instruction's spans all point into the source lines.
proof fn lemma_parse_line_lines(tl: TokenizedLineV, iv: InstrV, n: int)
    requires
        parse_line_v(tl) == Ok::<_, ErrV>(iv),
        tl.tokens.len() >= 1,
        1 <= tl.orig_line_num <= n,
        toks_ok(tl.tokens, n),
    ensures
        crate::codegen::instr_lines_ok(iv, n),
{
    let toks = tl.tokens;
    let label = if toks.len() >= 2 && (toks[0].item matches TokenV::Identifier(_)) && (
    toks[1].item is Colon) {
        Some(toks[0].item->Identifier_0)
    } else {
        None
    };
    let midx: int = if label is Some {
        2
    } else {
        0
    };
    if toks.len() > midx {
        match toks[midx].item {
            TokenV::Identifier(_) => {
                if midx + 1 < toks.len() {
                    match split_groups(toks, midx + 1, Seq::empty(), tl.orig_line_num) {
                        Ok(gs) => {
                            lemma_split_groups_props(
                                toks,
                                midx + 1,
                                Seq::empty(),
                                tl.orig_line_num,
                                gs,
                                n,
                            );
                            match parse_groups(gs, 0) {
                                Ok(ops) => {
                                    lemma_parse_groups_lines(gs, 0, ops, n);
                                },
                                Err(_) => {},
                            }
                        },
                        Err(_) => {},
                    }
                }
            },
            _ => {},
        }
    }
}

/// Every instruction a token-line parse produces has spans into the
/// source lines.
proof fn lemma_parse_tokens_lines(lines: Seq<TokenizedLineV>, i: int, instrs: Seq<InstrV>, labels: Seq<Seq<char>>, n: int)
    requires
        parse_tokens_v(lines, i) == Ok::<_, ErrV>((instrs, labels)),
        tok_lines_ok(lines, n),
        0 <= i <= lines.len(),
    ensures
        forall|w: int|
            0 <= w < instrs.len() ==> crate::codegen::instr_lines_ok(#[trigger] instrs[w], n),
    decreases lines.len() - i,
{
    if i < lines.len() {
        match parse_line_v(lines[i]) {
            Ok(iv) => {
                lemma_parse_line_lines(lines[i], iv, n);
                match parse_tokens_v(lines, i + 1) {
                    Ok(t) => {
                        lemma_parse_tokens_lines(lines, i + 1, t.0, t.1, n);
                        assert forall|w: int|
                            0 <= w < instrs.len() implies crate::codegen::instr_lines_ok(
                            #[trigger] instrs[w],
                            n,
                        ) by {
                            if w > 0 {
                                assert(instrs[w] == t.0[w - 1]);
                            }
                        }
                    },
                    Err(_) => {},
                }
            },
            Err(_) => {},
        }
    }
}

/// A variable value is an identifier kept symbolic, a number, or a
/// string.
pub open spec fn var_value_simple(v: OperandV) -> bool {
    ||| v matches OperandV::Identifier(_)
    ||| v matches OperandV::Number(_)
    ||| v matches OperandV::String(_)
}

/// Kept instructions keep their spans, and collected variable values
/// are simple.
proof fn lemma_setvars_props(
    instrs: Seq<InstrV>,
    i: int,
    labels: Seq<Seq<char>>,
    vars: Seq<(Seq<char>, OperandV)>,
    kept: Seq<InstrV>,
    vs: Seq<(Seq<char>, OperandV)>,
    n: int,
)
    requires
        parse_setvars_v(instrs, i, labels, vars) == Ok::<_, ErrV>((kept, vs)),
        0 <= i <= instrs.len(),
        forall|w: int|
            0 <= w < instrs.len() ==> crate::codegen::instr_lines_ok(#[trigger] instrs[w], n),
        forall|w: int| 0 <= w < vars.len() ==> var_value_simple((#[trigger] vars[w]).1),
    ensures
        forall|w: int| 0 <= w < kept.len() ==> crate::codegen::instr_lines_ok(#[trigger] kept[w], n),
        forall|w: int| 0 <= w < vs.len() ==> var_value_simple((#[trigger] vs[w]).1),
    decreases instrs.len() - i,
{
    if 0 <= i < instrs.len() {
        if is_set_instr(instrs[i]) {
            match parse_setvar_v(instrs[i], labels, vars) {
                Ok((name, value)) => {
                    if vars_find(vars, name) is Some {
                    } else {
                        assert(var_value_simple(value)) by {
                            lemma_setvar_value_simple(instrs[i], labels, vars, name, value);
                        }
                        assert forall|w: int|
                            0 <= w < vars.push((name, value)).len() implies var_value_simple(
                            (#[trigger] vars.push((name, value))[w]).1,
                        ) by {
                            if w < vars.len() {
                                assert(vars.push((name, value))[w] == vars[w]);
                            } else {
                                assert(vars.push((name, value))[w] == (name, value));
                            }
                        }
                        lemma_setvars_props(
                            instrs,
                            i + 1,
                            labels,
                            vars.push((name, value)),
                            kept,
                            vs,
                            n,
                        );
                    }
                },
                Err(_) => {},
            }
        } else {
            match parse_setvars_v(instrs, i + 1, labels, vars) {
                Ok(t) => {
                    lemma_setvars_props(instrs, i + 1, labels, vars, t.0, vs, n);
                    assert forall|w: int|
                        0 <= w < kept.len() implies crate::codegen::instr_lines_ok(
                        #[trigger] kept[w],
                        n,
                    ) by {
                        if w > 0 {
                            assert(kept[w] == t.0[w - 1]);
                        }
                    }
                },
                Err(_) => {},
            }
        }
    }
}

/// A value a `.set` line defines is simple.
proof fn lemma_setvar_value_simple(
    iv: InstrV,
    labels: Seq<Seq<char>>,
    vars: Seq<(Seq<char>, OperandV)>,
    name: Seq<char>,
    value: OperandV,
)
    requires
        parse_setvar_v(iv, labels, vars) == Ok::<_, ErrV>((name, value)),
        forall|w: int| 0 <= w < vars.len() ==> var_value_simple((#[trigger] vars[w]).1),
    ensures
        var_value_simple(value),
{
    match iv.item.operands[1].item {
        OperandV::Identifier(id_val) => {
            if !labels.contains(id_val) {
                lemma_vars_find_simple(vars, id_val);
            }
        },
        _ => {},
    }
}

/// A value found in a simple-valued association list is simple.
proof fn lemma_vars_find_simple(vars: Seq<(Seq<char>, OperandV)>, name: Seq<char>)
    requires
        forall|w: int| 0 <= w < vars.len() ==> var_value_simple((#[trigger] vars[w]).1),
    ensures
        vars_find(vars, name) matches Some(v) ==> var_value_simple(v),
    decreases vars.len(),
{
    if vars.len() > 0 && !(vars[0].0 == name) {
        assert forall|w: int|
            0 <= w < vars.drop_first().len() implies var_value_simple(
            (#[trigger] vars.drop_first()[w]).1,
        ) by {
            assert(vars.drop_first()[w] == vars[w + 1]);
        }
        lemma_vars_find_simple(vars.drop_first(), name);
    }
}

/// Expanding variables keeps every span pointing into the source.
proof fn lemma_expand_lines(iv: InstrV, vars: Seq<(Seq<char>, OperandV)>, n: int)
    requires
        crate::codegen::instr_lines_ok(iv, n),
        forall|w: int| 0 <= w < vars.len() ==> var_value_simple((#[trigger] vars[w]).1),
    ensures
        crate::codegen::instr_lines_ok(expand_instr_v(iv, vars), n),
{
    let out = expand_instr_v(iv, vars);
    assert forall|k: int|
        0 <= k < out.item.operands.len() implies crate::codegen::operand_lines_ok(
        #[trigger] out.item.operands[k],
        n,
    ) by {
        assert(crate::codegen::operand_lines_ok(iv.item.operands[k], n));
        assert(out.item.operands[k] == expand_operand_v(iv.item.operands[k], vars));
        match iv.item.operands[k].item {
            OperandV::Identifier(id) => {
                lemma_vars_find_simple(vars, id);
            },
            _ => {},
        }
    }
}

/// Parses the tokenized program: builds the instruction list and the
/// label list, collects and removes the `.set` variables, and expands
/// variable references. The result equals [`parse_v`], the original
/// source lines are carried through unchanged, and every span of the
/// parsed program points into them.
pub fn parse(tok_src: TokenizedSource) -> (r: Result<ParsedProgram, AsmError>)
    requires
        tok_lines_ok(tok_src.lines.deep_view(), tok_src.orig_lines@.len() as int),
    ensures
        match r {
            Ok(prog) => {
                &&& parse_v(tok_src.lines.deep_view()) == Ok::<_, ErrV>(
                    (
                        prog.instructions.deep_view(),
                        prog.variables.deep_view(),
                        prog.labels.deep_view(),
                    ),
                )
                &&& prog.orig_lines == tok_src.orig_lines
                &&& forall|w: int|
                    0 <= w < prog.instructions.deep_view().len()
                        ==> crate::codegen::instr_lines_ok(
                        #[trigger] prog.instructions.deep_view()[w],
                        prog.orig_lines@.len() as int,
                    )
            },
            Err(e) => {
                &&& parse_v(tok_src.lines.deep_view()) matches Err(ev)
                &&& err_matches(e, ev, tok_src.orig_lines.deep_view())
            },
        },
{
    let ghost linesv = tok_src.lines.deep_view();
    let ghost n = tok_src.orig_lines@.len() as int;
    let (instructions, labels) = match parse_tokens(&tok_src.lines, &tok_src.orig_lines) {
        Ok(p) => p,
        Err(e) => {
            return Err(e);
        },
    };
    proof {
        lemma_parse_tokens_lines(linesv, 0, instructions.deep_view(), labels.deep_view(), n);
    }
    let (kept, variables) = match parse_setvars(instructions, &labels, &tok_src.orig_lines) {
        Ok(p) => p,
        Err(e) => {
            return Err(e);
        },
    };
    proof {
        lemma_setvars_props(
            (parse_tokens_v(linesv, 0)->Ok_0).0,
            0,
            labels.deep_view(),
            Seq::empty(),
            kept.deep_view(),
            variables.deep_view(),
            n,
        );
    }
    let expanded = expand_vars(kept, &variables);
    proof {
        assert forall|w: int|
            0 <= w < expanded.deep_view().len() implies crate::codegen::instr_lines_ok(
            #[trigger] expanded.deep_view()[w],
            n,
        ) by {
            lemma_expand_lines(kept.deep_view()[w], variables.deep_view(), n);
        }
    }
    Ok(
        ParsedProgram {
            instructions: expanded,
            variables,
            labels,
            orig_lines: tok_src.orig_lines,
        },
    )
}

/// Whether a tokenized program meets the parser's conditions; see
/// [`tok_lines_ok`].
pub fn tok_source_ok(src: &TokenizedSource) -> (r: bool)
    ensures
        r == tok_lines_ok(src.lines.deep_view(), src.orig_lines@.len() as int),
{
    let ghost linesv = src.lines.deep_view();
    let n = src.orig_lines.len();
    let mut i: usize = 0;
    let mut ok = true;
    while i < src.lines.len()
        invariant
            i <= src.lines@.len(),
            linesv == src.lines.deep_view(),
            linesv.len() == src.lines@.len(),
            n == src.orig_lines@.len(),
            ok == (forall|j: int|
                0 <= j < i ==> {
                    let tl = #[trigger] linesv[j];
                    &&& 1 <= tl.orig_line_num <= n
                    &&& tl.tokens.len() >= 1
                    &&& toks_ok(tl.tokens, n as int)
                }),
        decreases src.lines@.len() - i,
    {
        proof {
            assert(linesv[i as int] == (src.lines@[i as int]).deep_view());
        }
        let tl = &src.lines[i];
        let ghost tlv = linesv[i as int];
        let mut this_ok = 1 <= tl.orig_line_num && tl.orig_line_num <= n && tl.tokens.len() >= 1;
        let mut k: usize = 0;
        let mut toks_all_ok = true;
        while k < tl.tokens.len()
            invariant
                k <= tl.tokens@.len(),
                i < src.lines@.len(),
                tl == &src.lines@[i as int],
                tlv == (src.lines@[i as int]).deep_view(),
                tlv.tokens.len() == tl.tokens@.len(),
                n == src.orig_lines@.len(),
                toks_all_ok == (forall|w: int|
                    0 <= w < k ==> {
                        let t = #[trigger] tlv.tokens[w];
                        &&& 1 <= t.span.start.line <= n
                        &&& (t.item matches TokenV::ArithmOp(op) ==> op.len() >= 1)
                    }),
            decreases tl.tokens@.len() - k,
        {
            proof {
                assert(tlv.tokens[k as int] == (tl.tokens@[k as int]).deep_view());
            }
            let t = &tl.tokens[k];
            let mut tok_ok = 1 <= t.span.start.line && t.span.start.line <= n;
            match &t.item {
                TokenType::ArithmOp(op) => {
                    proof {
                        assert(tlv.tokens[k as int].item == TokenV::ArithmOp(op@));
                    }
                    if op.as_str().unicode_len() < 1 {
                        tok_ok = false;
                    }
                },
                _ => {
                    proof {
                        assert(!(tlv.tokens[k as int].item matches TokenV::ArithmOp(_)));
                    }
                },
            }
            toks_all_ok = toks_all_ok && tok_ok;
            k += 1;
        }
        this_ok = this_ok && toks_all_ok;
        ok = ok && this_ok;
        i += 1;
    }
    ok
}

} // verus!
