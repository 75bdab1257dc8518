//! Source locations, the `Located` wrapper that ties an item to its span,
//! and the error type every stage of the assembler reports.

use vstd::prelude::*;

verus! {

/// A position in the source text: 1-based line, 1-based column.
#[derive(Debug, Clone, Copy, PartialEq, Eq, Structural)]
pub struct SourceLoc {
    pub line: usize,
    pub column: usize,
}

/// An inclusive range of source positions, used for diagnostics.
#[derive(Debug, Clone, Copy)]
pub struct SourceSpan {
    pub start: SourceLoc,
    pub end: SourceLoc,
}

/// An item together with the source span it came from.
#[derive(Debug, Clone)]
pub struct Located<T> {
    pub item: T,
    pub span: SourceSpan,
}

/// The mathematical value of a located item: the item's own mathematical
/// value together with the span, which is already a plain value.
#[verifier::ext_equal]
pub struct LocatedV<U> {
    pub item: U,
    pub span: SourceSpan,
}

impl<T: DeepView> DeepView for Located<T> {
    type V = LocatedV<T::V>;

    open spec fn deep_view(&self) -> LocatedV<T::V> {
        LocatedV { item: self.item.deep_view(), span: self.span }
    }
}

impl<T> Located<T> {
    pub fn new(item: T, span: SourceSpan) -> (r: Self)
        ensures
            r.item == item,
            r.span == span,
    {
        Self { item, span }
    }

    pub fn map<U, F: FnOnce(T) -> U>(self, f: F) -> (r: Located<U>)
        requires
            call_requires(f, (self.item,)),
        ensures
            r.span == self.span,
            call_ensures(f, (self.item,), r.item),
    {
        let Located { item, span } = self;
        Located { item: f(item), span }
    }
}

/// An assembly error: a one-line message, the offending span, and the text
/// of the source line it points into.
#[derive(Debug, Clone)]
pub struct AsmError {
    pub msg: String,
    pub span: SourceSpan,
    pub src_line: String,
}

impl AsmError {
    pub fn new(msg: String, span: SourceSpan, src_line: String) -> (r: Self)
        ensures
            r.msg == msg,
            r.span == span,
            r.src_line == src_line,
    {
        Self { msg, span, src_line }
    }
}

/// The mathematical value of an assembly error: the message, the span it
/// points at, and the 1-based number of the source line it quotes.
#[verifier::ext_equal]
pub struct ErrV {
    pub msg: Seq<char>,
    pub span: SourceSpan,
    pub line: usize,
}

/// An error value carries the specified message and span, quotes the
/// specified source line, and that line exists.
pub open spec fn err_matches(e: AsmError, ev: ErrV, lines: Seq<Seq<char>>) -> bool {
    &&& e.msg@ == ev.msg
    &&& e.span == ev.span
    &&& 1 <= ev.line <= lines.len()
    &&& e.src_line@ == lines[ev.line - 1]
}

} // verus!
