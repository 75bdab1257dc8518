//! The lexer: turns each preprocessed line into a sequence of classified
//! tokens with source positions. The token grammar is spelled out by
//! [`lex_from`], and the lexer is proved to produce exactly that.

use vstd::prelude::*;
use vstd::string::StrSliceExecFns;
use vstd::string::StringExecFns;

use crate::data::AsmError;
use crate::data::ErrV;
use crate::data::Located;
use crate::data::LocatedV;
use crate::data::SourceLoc;
use crate::data::SourceSpan;
use crate::data::err_matches;
use crate::preproc::PreprocLine;
use crate::preproc::PreprocSource;
use crate::strutil::char_is_alphabetic;
use crate::strutil::char_is_alphanumeric;
use crate::strutil::is_alnum_char;
use crate::strutil::is_alpha_char;
use crate::strutil::parse_radix;
use crate::strutil::parse_radix_exec;

verus! {

/// One lexical token.
#[derive(Debug, Clone, PartialEq)]
pub enum TokenType {
    Colon,
    Comma,
    OpenSqBr,
    CloseSqBr,
    ArithmOp(String),
    Identifier(String),
    Register(String),
    Number(i64),
    String(String),
    Comment(String),
}

pub type Token = Located<TokenType>;

/// The mathematical value of a token.
#[verifier::ext_equal]
pub enum TokenV {
    Colon,
    Comma,
    OpenSqBr,
    CloseSqBr,
    ArithmOp(Seq<char>),
    Identifier(Seq<char>),
    Register(Seq<char>),
    Number(i64),
    String(Seq<char>),
    Comment(Seq<char>),
}

pub type TokenLocV = LocatedV<TokenV>;

impl DeepView for TokenType {
    type V = TokenV;

    open spec fn deep_view(&self) -> TokenV {
        match self {
            TokenType::Colon => TokenV::Colon,
            TokenType::Comma => TokenV::Comma,
            TokenType::OpenSqBr => TokenV::OpenSqBr,
            TokenType::CloseSqBr => TokenV::CloseSqBr,
            TokenType::ArithmOp(s) => TokenV::ArithmOp(s@),
            TokenType::Identifier(s) => TokenV::Identifier(s@),
            TokenType::Register(s) => TokenV::Register(s@),
            TokenType::Number(n) => TokenV::Number(*n),
            TokenType::String(s) => TokenV::String(s@),
            TokenType::Comment(s) => TokenV::Comment(s@),
        }
    }
}

/// The tokens of one line, with the 1-based number of the source line
/// they came from.
#[derive(Debug)]
pub struct TokenizedLine {
    pub tokens: Vec<Token>,
    pub orig_line_num: usize,
}

/// The mathematical value of a tokenized line.
#[verifier::ext_equal]
pub struct TokenizedLineV {
    pub tokens: Seq<TokenLocV>,
    pub orig_line_num: usize,
}

impl DeepView for TokenizedLine {
    type V = TokenizedLineV;

    open spec fn deep_view(&self) -> TokenizedLineV {
        TokenizedLineV { tokens: self.tokens.deep_view(), orig_line_num: self.orig_line_num }
    }
}

/// The tokenized program together with the original source lines.
#[derive(Debug)]
pub struct TokenizedSource {
    pub lines: Vec<TokenizedLine>,
    pub orig_lines: Vec<String>,
}

// ---------------------------------------------------------------------
// The token grammar.
// ---------------------------------------------------------------------
/// A character that may continue an identifier.
pub open spec fn ident_char(c: char) -> bool {
    is_alnum_char(c) || c == '_' || c == '.'
}

/// A character that may start an identifier.
pub open spec fn ident_start_char(c: char) -> bool {
    is_alpha_char(c) || c == '_' || c == '.'
}

/// An ASCII decimal digit.
pub open spec fn ascii_digit(c: char) -> bool {
    48 <= c as u32 <= 57
}

/// The first position at or after `i` that cannot continue an
/// identifier.
pub open spec fn ident_end(s: Seq<char>, i: int) -> int
    decreases s.len() - i,
{
    if i < 0 || i >= s.len() {
        s.len() as int
    } else if ident_char(s[i]) {
        ident_end(s, i + 1)
    } else {
        i
    }
}

/// The first position at or after `i` that is not alphanumeric.
pub open spec fn alnum_end(s: Seq<char>, i: int) -> int
    decreases s.len() - i,
{
    if i < 0 || i >= s.len() {
        s.len() as int
    } else if is_alnum_char(s[i]) {
        alnum_end(s, i + 1)
    } else {
        i
    }
}

/// The outcome of scanning a string literal's body: the decoded
/// characters, the position after the last consumed character, and
/// whether the literal did not end in a dangling escape.
#[verifier::ext_equal]
pub struct StrScan {
    pub content: Seq<char>,
    pub next: int,
    pub ok: bool,
}

/// Scans a string literal's body from position `i`: an escaped
/// character stands for itself, `\\` escapes the next character, and an
/// unescaped `"` ends the literal.
pub open spec fn scan_string(s: Seq<char>, i: int, escaped: bool) -> StrScan
    decreases s.len() - i,
{
    if i < 0 || i >= s.len() {
        StrScan { content: Seq::empty(), next: i, ok: !escaped }
    } else if escaped {
        let r = scan_string(s, i + 1, false);
        StrScan { content: seq![s[i]] + r.content, next: r.next, ok: r.ok }
    } else if s[i] == '\\' {
        scan_string(s, i + 1, true)
    } else if s[i] == '"' {
        StrScan { content: Seq::empty(), next: i + 1, ok: true }
    } else {
        let r = scan_string(s, i + 1, false);
        StrScan { content: seq![s[i]] + r.content, next: r.next, ok: r.ok }
    }
}

/// The source location of character position `pos` of a line whose
/// first character sits at column `sc + 1` of source line `ln`.
pub open spec fn char_loc(ln: usize, sc: usize, pos: int) -> SourceLoc {
    SourceLoc { line: ln, column: (sc + pos + 1) as usize }
}

/// The span from character position `a` to `b` of the line.
pub open spec fn char_span(ln: usize, sc: usize, a: int, b: int) -> SourceSpan {
    SourceSpan { start: char_loc(ln, sc, a), end: char_loc(ln, sc, b) }
}

/// Identifier scanning stays within the line and never moves backwards.
proof fn lemma_ident_end_bounds(s: Seq<char>, i: int)
    requires
        0 <= i <= s.len(),
    ensures
        i <= ident_end(s, i) <= s.len(),
    decreases s.len() - i,
{
    if i < s.len() && ident_char(s[i]) {
        lemma_ident_end_bounds(s, i + 1);
    }
}

/// Alphanumeric scanning stays within the line and never moves
/// backwards.
proof fn lemma_alnum_end_bounds(s: Seq<char>, i: int)
    requires
        0 <= i <= s.len(),
    ensures
        i <= alnum_end(s, i) <= s.len(),
    decreases s.len() - i,
{
    if i < s.len() && is_alnum_char(s[i]) {
        lemma_alnum_end_bounds(s, i + 1);
    }
}

/// String scanning stays within the line and always consumes at least
/// the character it starts at.
proof fn lemma_scan_string_bounds(s: Seq<char>, i: int, escaped: bool)
    requires
        0 <= i <= s.len(),
    ensures
        i <= scan_string(s, i, escaped).next <= s.len(),
    decreases s.len() - i,
{
    if i < s.len() {
        if escaped {
            lemma_scan_string_bounds(s, i + 1, false);
        } else if s[i] == '\\' {
            lemma_scan_string_bounds(s, i + 1, true);
        } else if s[i] == '"' {
        } else {
            lemma_scan_string_bounds(s, i + 1, false);
        }
    }
}

/// Prepends a token to the outcome of lexing the rest of the line.
pub open spec fn lex_cons(t: TokenLocV, rest: Result<Seq<TokenLocV>, ErrV>) -> Result<
    Seq<TokenLocV>,
    ErrV,
> {
    match rest {
        Ok(ts) => Ok(seq![t] + ts),
        Err(e) => Err(e),
    }
}

/// The tokens of the line from character position `i` on, or the first
/// lexical error. `ln` is the 1-based source line number and `sc` the
/// 0-based column of the line's first character.
pub open spec fn lex_from(s: Seq<char>, i: int, ln: usize, sc: usize) -> Result<
    Seq<TokenLocV>,
    ErrV,
>
    decreases s.len() - i,
    when i >= 0
    via lex_from_decreases
{
    if i >= s.len() {
        Ok(Seq::empty())
    } else {
        let c = s[i];
        if c == ' ' || c == '\t' {
            lex_from(s, i + 1, ln, sc)
        } else if c == ':' {
            lex_cons(
                LocatedV { item: TokenV::Colon, span: char_span(ln, sc, i, i) },
                lex_from(s, i + 1, ln, sc),
            )
        } else if c == ',' {
            lex_cons(
                LocatedV { item: TokenV::Comma, span: char_span(ln, sc, i, i) },
                lex_from(s, i + 1, ln, sc),
            )
        } else if c == '[' {
            lex_cons(
                LocatedV { item: TokenV::OpenSqBr, span: char_span(ln, sc, i, i) },
                lex_from(s, i + 1, ln, sc),
            )
        } else if c == ']' {
            lex_cons(
                LocatedV { item: TokenV::CloseSqBr, span: char_span(ln, sc, i, i) },
                lex_from(s, i + 1, ln, sc),
            )
        } else if c == '+' || c == '-' {
            lex_cons(
                LocatedV { item: TokenV::ArithmOp(seq![c]), span: char_span(ln, sc, i, i) },
                lex_from(s, i + 1, ln, sc),
            )
        } else if ident_start_char(c) {
            let j = ident_end(s, i + 1);
            let name = s.subrange(i, j);
            let t = if name.len() >= 2 && (name[0] == 'r' || name[0] == 'R') && ascii_digit(
                name[1],
            ) {
                TokenV::Register(name)
            } else {
                TokenV::Identifier(name)
            };
            lex_cons(
                LocatedV { item: t, span: char_span(ln, sc, i, j - 1) },
                lex_from(s, j, ln, sc),
            )
        } else if ascii_digit(c) {
            let hex = c == '0' && i + 1 < s.len() && s[i + 1] == 'x';
            let digits_start: int = if hex {
                i + 2
            } else {
                i
            };
            let j = if hex {
                alnum_end(s, i + 2)
            } else {
                alnum_end(s, i + 1)
            };
            let radix: u32 = if hex {
                16
            } else {
                10
            };
            match parse_radix(s.subrange(digits_start, j), radix) {
                Some(v) => lex_cons(
                    LocatedV { item: TokenV::Number(v), span: char_span(ln, sc, i, j - 1) },
                    lex_from(s, j, ln, sc),
                ),
                None => Err(
                    ErrV {
                        msg: if hex {
                            "invalid hexadecimal number"@
                        } else {
                            "invalid decimal number"@
                        },
                        span: char_span(ln, sc, i, j - 1),
                        line: ln,
                    },
                ),
            }
        } else if c == '"' {
            let r = scan_string(s, i + 1, false);
            let end_pos: int = if r.next == i + 1 {
                i
            } else {
                r.next - 1
            };
            if !r.ok {
                Err(
                    ErrV {
                        msg: "incomplete string literal"@,
                        span: char_span(ln, sc, i, end_pos),
                        line: ln,
                    },
                )
            } else {
                lex_cons(
                    LocatedV {
                        item: TokenV::String(r.content),
                        span: char_span(ln, sc, i, end_pos),
                    },
                    lex_from(s, r.next, ln, sc),
                )
            }
        } else if c == ';' {
            Ok(
                seq![
                    LocatedV {
                        item: TokenV::Comment(s.subrange(i, s.len() as int)),
                        span: char_span(ln, sc, i, s.len() - 1),
                    },
                ],
            )
        } else {
            Err(
                ErrV {
                    msg: "unexpected character: "@ + seq![c],
                    span: char_span(ln, sc, i, i),
                    line: ln,
                },
            )
        }
    }
}

#[via_fn]
proof fn lex_from_decreases(s: Seq<char>, i: int, ln: usize, sc: usize) {
    if 0 <= i && i < s.len() {
        lemma_ident_end_bounds(s, i + 1);
        lemma_alnum_end_bounds(s, i + 1);
        if i + 2 <= s.len() {
            lemma_alnum_end_bounds(s, i + 2);
        }
        lemma_scan_string_bounds(s, i + 1, false);
    }
}

/// The characterisation of identifier scanning: the first position that
/// cannot continue an identifier.
proof fn lemma_ident_end_eq(s: Seq<char>, i: int, j: int)
    requires
        0 <= i <= j <= s.len(),
        forall|m: int| i <= m < j ==> ident_char(#[trigger] s[m]),
        j < s.len() ==> !ident_char(s[j]),
    ensures
        ident_end(s, i) == j,
    decreases j - i,
{
    if i < j {
        lemma_ident_end_eq(s, i + 1, j);
    }
}

/// The characterisation of alphanumeric scanning.
proof fn lemma_alnum_end_eq(s: Seq<char>, i: int, j: int)
    requires
        0 <= i <= j <= s.len(),
        forall|m: int| i <= m < j ==> is_alnum_char(#[trigger] s[m]),
        j < s.len() ==> !is_alnum_char(s[j]),
    ensures
        alnum_end(s, i) == j,
    decreases j - i,
{
    if i < j {
        lemma_alnum_end_eq(s, i + 1, j);
    }
}

/// Scans from position `i` to the end of the current identifier.
fn ident_end_exec(s: &str, i: usize, n: usize) -> (r: usize)
    requires
        n == s@.len(),
        i <= n,
    ensures
        r == ident_end(s@, i as int),
        i <= r <= n,
{
    let mut j = i;
    while j < n
        invariant
            i <= j <= n,
            n == s@.len(),
            forall|m: int| i <= m < j ==> ident_char(#[trigger] s@[m]),
        decreases n - j,
    {
        let c = s.get_char(j);
        if !(char_is_alphanumeric(c) || c == '_' || c == '.') {
            proof {
                lemma_ident_end_eq(s@, i as int, j as int);
            }
            return j;
        }
        j += 1;
    }
    proof {
        lemma_ident_end_eq(s@, i as int, j as int);
    }
    j
}

/// Scans from position `i` to the end of the current alphanumeric run.
fn alnum_end_exec(s: &str, i: usize, n: usize) -> (r: usize)
    requires
        n == s@.len(),
        i <= n,
    ensures
        r == alnum_end(s@, i as int),
        i <= r <= n,
{
    let mut j = i;
    while j < n
        invariant
            i <= j <= n,
            n == s@.len(),
            forall|m: int| i <= m < j ==> is_alnum_char(#[trigger] s@[m]),
        decreases n - j,
    {
        let c = s.get_char(j);
        if !char_is_alphanumeric(c) {
            proof {
                lemma_alnum_end_eq(s@, i as int, j as int);
            }
            return j;
        }
        j += 1;
    }
    proof {
        lemma_alnum_end_eq(s@, i as int, j as int);
    }
    j
}

/// Scans a string literal's body starting after the opening quote at
/// `i`; returns the decoded content, the position after the last
/// consumed character, and whether no escape was left dangling.
fn scan_string_exec(s: &str, i: usize, n: usize) -> (r: (String, usize, bool))
    requires
        n == s@.len(),
        i < n,
    ensures
        ({
            let t = scan_string(s@, i + 1, false);
            r.0@ == t.content && r.1 as int == t.next && r.2 == t.ok
        }),
        i + 1 <= r.1 <= n,
{
    let mut content = String::new();
    let mut p: usize = i + 1;
    let mut escaped = false;
    let mut closed = false;
    while p < n && !closed
        invariant
            i + 1 <= p <= n,
            n == s@.len(),
            closed ==> ({
                let t = scan_string(s@, i + 1, false);
                t.content == content@ && t.next == p && t.ok
            }),
            !closed ==> ({
                let t = scan_string(s@, i + 1, false);
                let u = scan_string(s@, p as int, escaped);
                t.content == content@ + u.content && t.next == u.next && t.ok == u.ok
            }),
        decreases n - p + (if closed { 0int } else { 1int }),
    {
        let c = s.get_char(p);
        if escaped {
            content.append(s.substring_char(p, p + 1));
            escaped = false;
            p += 1;
            proof {
                let u = scan_string(s@, p as int, false);
                assert(content@ + u.content =~= (content@.drop_last() + (seq![s@[p - 1]]
                    + u.content)));
            }
        } else if c == '\\' {
            escaped = true;
            p += 1;
        } else if c == '"' {
            p += 1;
            closed = true;
        } else {
            content.append(s.substring_char(p, p + 1));
            p += 1;
            proof {
                let u = scan_string(s@, p as int, false);
                assert(content@ + u.content =~= (content@.drop_last() + (seq![s@[p - 1]]
                    + u.content)));
            }
        }
    }
    if closed {
        (content, p, true)
    } else {
        proof {
            assert(scan_string(s@, p as int, escaped).content =~= Seq::<char>::empty());
            assert(content@ + Seq::<char>::empty() =~= content@);
        }
        (content, p, !escaped)
    }
}

/// Lexes one preprocessed line into tokens; the result equals
/// [`lex_from`] at position 0.
fn tokenize_line(line: &PreprocLine, orig_lines: &Vec<String>) -> (r: Result<Vec<Token>, AsmError>)
    requires
        1 <= line.orig_line_num <= orig_lines@.len(),
        line.start_col + line.content@.len() + 1 <= usize::MAX,
    ensures
        match r {
            Ok(ts) => lex_from(line.content@, 0, line.orig_line_num, line.start_col) == Ok::<
                _,
                ErrV,
            >(ts.deep_view()),
            Err(e) => {
                &&& lex_from(line.content@, 0, line.orig_line_num, line.start_col) matches Err(ev)
                &&& err_matches(e, ev, orig_lines.deep_view())
            },
        },
{
    let s: &str = line.content.as_str();
    let ghost sv = s@;
    let ln = line.orig_line_num;
    let sc = line.start_col;
    let n = s.unicode_len();
    let mut tokens: Vec<Token> = Vec::new();
    let mut i: usize = 0;
    while i < n
        invariant
            i <= n,
            n == sv.len(),
            sv == line.content@,
            sv == s@,
            1 <= ln <= orig_lines@.len(),
            ln == line.orig_line_num,
            sc == line.start_col,
            sc + sv.len() + 1 <= usize::MAX,
            match lex_from(sv, i as int, ln, sc) {
                Ok(t) => lex_from(sv, 0, ln, sc) == Ok::<_, ErrV>(tokens.deep_view() + t),
                Err(e) => lex_from(sv, 0, ln, sc) == Err::<Seq<TokenLocV>, _>(e),
            },
        decreases n - i,
    {
        let c = s.get_char(i);
        let start_loc = SourceLoc { line: ln, column: sc + i + 1 };
        let mut new_tok: Option<Token> = None;
        let ghost prev_i = i as int;
        if c == ' ' || c == '\t' {
            i += 1;
        } else if c == ':' {
            new_tok = Some(
                Located::new(TokenType::Colon, SourceSpan { start: start_loc, end: start_loc }),
            );
            i += 1;
        } else if c == ',' {
            new_tok = Some(
                Located::new(TokenType::Comma, SourceSpan { start: start_loc, end: start_loc }),
            );
            i += 1;
        } else if c == '[' {
            new_tok = Some(
                Located::new(TokenType::OpenSqBr, SourceSpan { start: start_loc, end: start_loc }),
            );
            i += 1;
        } else if c == ']' {
            new_tok = Some(
                Located::new(TokenType::CloseSqBr, SourceSpan { start: start_loc, end: start_loc }),
            );
            i += 1;
        } else if c == '+' || c == '-' {
            let op_str = s.substring_char(i, i + 1).to_owned();
            proof {
                assert(op_str@ =~= seq![c]);
            }
            new_tok = Some(
                Located::new(
                    TokenType::ArithmOp(op_str),
                    SourceSpan { start: start_loc, end: start_loc },
                ),
            );
            i += 1;
        } else if char_is_alphabetic(c) || c == '_' || c == '.' {
            let j = ident_end_exec(s, i + 1, n);
            let name = s.substring_char(i, j).to_owned();
            proof {
                assert(name@ == sv.subrange(i as int, j as int));
                assert(name@[0] == sv[i as int]);
            }
            let end_loc = SourceLoc { line: ln, column: sc + (j - 1) + 1 };
            let first = s.get_char(i);
            let is_reg = if j - i >= 2 && (first == 'r' || first == 'R') {
                let second = s.get_char(i + 1);
                (second as u32) >= 48 && (second as u32) <= 57
            } else {
                false
            };
            let token_type = if is_reg {
                TokenType::Register(name)
            } else {
                TokenType::Identifier(name)
            };
            new_tok = Some(Located::new(token_type, SourceSpan { start: start_loc, end: end_loc }));
            i = j;
        } else if (c as u32) >= 48 && (c as u32) <= 57 {
            let is_hex = c == '0' && i + 1 < n && s.get_char(i + 1) == 'x';
            let digits_start = if is_hex {
                i + 2
            } else {
                i
            };
            let j = if is_hex {
                alnum_end_exec(s, i + 2, n)
            } else {
                alnum_end_exec(s, i + 1, n)
            };
            let radix: u32 = if is_hex {
                16
            } else {
                10
            };
            let digits = s.substring_char(digits_start, j);
            let end_loc = SourceLoc { line: ln, column: sc + (j - 1) + 1 };
            match parse_radix_exec(digits, radix) {
                Some(num) => {
                    new_tok = Some(
                        Located::new(
                            TokenType::Number(num),
                            SourceSpan { start: start_loc, end: end_loc },
                        ),
                    );
                    i = j;
                },
                None => {
                    return Err(
                        AsmError::new(
                            if is_hex {
                                "invalid hexadecimal number".to_owned()
                            } else {
                                "invalid decimal number".to_owned()
                            },
                            SourceSpan { start: start_loc, end: end_loc },
                            orig_lines[ln - 1].clone(),
                        ),
                    );
                },
            }
        } else if c == '"' {
            let (str_val, next, ok) = scan_string_exec(s, i, n);
            let end_pos = if next == i + 1 {
                i
            } else {
                next - 1
            };
            let end_loc = SourceLoc { line: ln, column: sc + end_pos + 1 };
            if !ok {
                return Err(
                    AsmError::new(
                        "incomplete string literal".to_owned(),
                        SourceSpan { start: start_loc, end: end_loc },
                        orig_lines[ln - 1].clone(),
                    ),
                );
            }
            new_tok = Some(
                Located::new(
                    TokenType::String(str_val),
                    SourceSpan { start: start_loc, end: end_loc },
                ),
            );
            i = next;
        } else if c == ';' {
            let comment = s.substring_char(i, n).to_owned();
            let end_loc = SourceLoc { line: ln, column: sc + (n - 1) + 1 };
            new_tok = Some(
                Located::new(
                    TokenType::Comment(comment),
                    SourceSpan { start: start_loc, end: end_loc },
                ),
            );
            i = n;
        } else {
            let mut msg = "unexpected character: ".to_owned();
            msg.append(s.substring_char(i, i + 1));
            proof {
                assert(msg@ == "unexpected character: "@ + seq![c]);
            }
            return Err(
                AsmError::new(
                    msg,
                    SourceSpan { start: start_loc, end: start_loc },
                    orig_lines[ln - 1].clone(),
                ),
            );
        }
        match new_tok {
            Some(t) => {
                let ghost prevdv = tokens.deep_view();
                let ghost tv = t.deep_view();
                tokens.push(t);
                proof {
                    assert(tokens.deep_view() =~= prevdv + seq![tv]) by {
                        assert forall|j: int|
                            0 <= j < tokens@.len() implies (#[trigger] tokens@[j]).deep_view() == (
                        prevdv + seq![tv])[j] by {
                            if j < prevdv.len() {
                                assert(tokens@[j] == tokens@.take(tokens@.len() - 1)[j]);
                            } else {
                                assert(tokens@[j] == tokens@.last());
                            }
                        }
                    }
                    assert(lex_from(sv, prev_i, ln, sc) == lex_cons(
                        tv,
                        lex_from(sv, i as int, ln, sc),
                    ));
                    match lex_from(sv, i as int, ln, sc) {
                        Ok(t2) => {
                            assert(prevdv + (seq![tv] + t2) =~= (prevdv + seq![tv]) + t2);
                        },
                        Err(_) => {},
                    }
                }
            },
            None => {},
        }
    }
    proof {
        assert(lex_from(sv, i as int, ln, sc) == Ok::<_, ErrV>(Seq::<TokenLocV>::empty()));
        assert(tokens.deep_view() + Seq::<TokenLocV>::empty() =~= tokens.deep_view());
    }
    Ok(tokens)
}

/// Lexes the preprocessed lines from position `i` on.
pub open spec fn tokenize_lines_from(lines: Seq<crate::preproc::PreprocLineV>, i: int) -> Result<
    Seq<TokenizedLineV>,
    ErrV,
>
    decreases lines.len() - i,
{
    if i < 0 || i >= lines.len() {
        Ok(Seq::empty())
    } else {
        match lex_from(lines[i].content, 0, lines[i].orig_line_num, lines[i].start_col) {
            Err(e) => Err(e),
            Ok(ts) => match tokenize_lines_from(lines, i + 1) {
                Ok(t) => Ok(
                    seq![
                        TokenizedLineV { tokens: ts, orig_line_num: lines[i].orig_line_num },
                    ] + t,
                ),
                Err(e) => Err(e),
            },
        }
    }
}

/// What the lexer requires of preprocessed lines: line numbers that
/// index the source, and columns whose arithmetic cannot overflow.
pub open spec fn preproc_lines_ok(
    lines: Seq<crate::preproc::PreprocLineV>,
    n_lines: int,
) -> bool {
    forall|i: int|
        0 <= i < lines.len() ==> {
            let l = #[trigger] lines[i];
            &&& 1 <= l.orig_line_num <= n_lines
            &&& l.start_col + l.content.len() + 1 <= usize::MAX
        }
}

/// Lexes every preprocessed line; the result equals
/// [`tokenize_lines_from`] at position 0, and the original source lines
/// are carried through unchanged.
pub fn tokenize(source: PreprocSource) -> (r: Result<TokenizedSource, AsmError>)
    requires
        preproc_lines_ok(source.lines.deep_view(), source.orig_lines@.len() as int),
    ensures
        match r {
            Ok(ts) => {
                &&& tokenize_lines_from(source.lines.deep_view(), 0) == Ok::<_, ErrV>(
                    ts.lines.deep_view(),
                )
                &&& ts.orig_lines == source.orig_lines
            },
            Err(e) => {
                &&& tokenize_lines_from(source.lines.deep_view(), 0) matches Err(ev)
                &&& err_matches(e, ev, source.orig_lines.deep_view())
            },
        },
{
    let ghost linesv = source.lines.deep_view();
    let mut tokenized_lines: Vec<TokenizedLine> = Vec::new();
    let mut i: usize = 0;
    while i < source.lines.len()
        invariant
            i <= source.lines@.len(),
            linesv == source.lines.deep_view(),
            linesv.len() == source.lines@.len(),
            preproc_lines_ok(linesv, source.orig_lines@.len() as int),
            match tokenize_lines_from(linesv, i as int) {
                Ok(t) => tokenize_lines_from(linesv, 0) == Ok::<_, ErrV>(
                    tokenized_lines.deep_view() + t,
                ),
                Err(e) => tokenize_lines_from(linesv, 0) == Err::<Seq<TokenizedLineV>, _>(e),
            },
        decreases source.lines@.len() - i,
    {
        proof {
            assert(linesv[i as int] == (source.lines@[i as int]).deep_view());
        }
        let line = &source.lines[i];
        let tokens = match tokenize_line(line, &source.orig_lines) {
            Ok(ts) => ts,
            Err(e) => {
                return Err(e);
            },
        };
        let tl = TokenizedLine { tokens, orig_line_num: line.orig_line_num };
        let ghost prevdv = tokenized_lines.deep_view();
        let ghost tlv = tl.deep_view();
        tokenized_lines.push(tl);
        proof {
            assert(tokenized_lines.deep_view() =~= prevdv + seq![tlv]) by {
                assert forall|j: int|
                    0 <= j < tokenized_lines@.len() implies (#[trigger] tokenized_lines@[
                j]).deep_view() == (prevdv + seq![tlv])[j] by {
                    if j < prevdv.len() {
                        assert(tokenized_lines@[j] == tokenized_lines@.take(
                            tokenized_lines@.len() - 1,
                        )[j]);
                    } else {
                        assert(tokenized_lines@[j] == tokenized_lines@.last());
                    }
                }
            }
            match tokenize_lines_from(linesv, i + 1) {
                Ok(t) => {
                    assert(prevdv + (seq![tlv] + t) =~= (prevdv + seq![tlv]) + t);
                },
                Err(_) => {},
            }
        }
        i += 1;
    }
    proof {
        assert(tokenize_lines_from(linesv, i as int) == Ok::<_, ErrV>(
            Seq::<TokenizedLineV>::empty(),
        ));
        assert(tokenized_lines.deep_view() + Seq::<TokenizedLineV>::empty()
            =~= tokenized_lines.deep_view());
    }
    Ok(TokenizedSource { lines: tokenized_lines, orig_lines: source.orig_lines })
}

impl TokenType {
    /// A verified copy: the result has the same mathematical value.
    pub fn dup(&self) -> (r: Self)
        ensures
            r.deep_view() == self.deep_view(),
    {
        match self {
            TokenType::Colon => TokenType::Colon,
            TokenType::Comma => TokenType::Comma,
            TokenType::OpenSqBr => TokenType::OpenSqBr,
            TokenType::CloseSqBr => TokenType::CloseSqBr,
            TokenType::ArithmOp(s) => TokenType::ArithmOp(s.clone()),
            TokenType::Identifier(s) => TokenType::Identifier(s.clone()),
            TokenType::Register(s) => TokenType::Register(s.clone()),
            TokenType::Number(n) => TokenType::Number(*n),
            TokenType::String(s) => TokenType::String(s.clone()),
            TokenType::Comment(s) => TokenType::Comment(s.clone()),
        }
    }
}

impl Located<TokenType> {
    /// A verified copy of a token together with its span.
    pub fn dup(&self) -> (r: Self)
        ensures
            r.deep_view() == self.deep_view(),
    {
        Located { item: self.item.dup(), span: self.span }
    }
}

/// Whether a preprocessed program meets the lexer's conditions; see
/// [`preproc_lines_ok`].
pub fn preproc_source_ok(source: &PreprocSource) -> (r: bool)
    ensures
        r == preproc_lines_ok(source.lines.deep_view(), source.orig_lines@.len() as int),
{
    let ghost linesv = source.lines.deep_view();
    let n = source.orig_lines.len();
    let mut i: usize = 0;
    let mut ok = true;
    while i < source.lines.len()
        invariant
            i <= source.lines@.len(),
            linesv == source.lines.deep_view(),
            linesv.len() == source.lines@.len(),
            n == source.orig_lines@.len(),
            ok == (forall|j: int|
                0 <= j < i ==> {
                    let l = #[trigger] linesv[j];
                    &&& 1 <= l.orig_line_num <= n
                    &&& l.start_col + l.content.len() + 1 <= usize::MAX
                }),
        decreases source.lines@.len() - i,
    {
        proof {
            assert(linesv[i as int] == (source.lines@[i as int]).deep_view());
        }
        let line = &source.lines[i];
        let len = line.content.as_str().unicode_len();
        let this_ok = if len < usize::MAX {
            1 <= line.orig_line_num && line.orig_line_num <= n && line.start_col <= usize::MAX
                - len - 1
        } else {
            false
        };
        ok = ok && this_ok;
        i += 1;
    }
    ok
}

} // verus!
