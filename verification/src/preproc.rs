//! The preprocessor: drops blank and comment lines, keeps each surviving
//! line's text together with its 1-based source line number and the
//! column its first character came from.

use vstd::prelude::*;
use vstd::string::StrSliceExecFns;

use crate::strutil::char_is_whitespace;
use crate::strutil::is_ws_char;

verus! {

/// One surviving source line: its trimmed text, the 1-based number of
/// the line it came from, and the 0-based column of its first
/// character there.
#[derive(Debug, Clone)]
pub struct PreprocLine {
    pub content: String,
    pub orig_line_num: usize,
    pub start_col: usize,
}

/// The mathematical value of a preprocessed line.
#[verifier::ext_equal]
pub struct PreprocLineV {
    pub content: Seq<char>,
    pub orig_line_num: usize,
    pub start_col: usize,
}

impl DeepView for PreprocLine {
    type V = PreprocLineV;

    open spec fn deep_view(&self) -> PreprocLineV {
        PreprocLineV {
            content: self.content@,
            orig_line_num: self.orig_line_num,
            start_col: self.start_col,
        }
    }
}

/// The preprocessed program: the surviving lines and every original
/// source line, kept for diagnostics.
#[derive(Debug, Clone)]
pub struct PreprocSource {
    pub lines: Vec<PreprocLine>,
    pub orig_lines: Vec<String>,
}

/// The first position at or after `i` holding a newline, or the end of
/// the text.
pub open spec fn newline_at(s: Seq<char>, i: int) -> int
    decreases s.len() - i,
{
    if i < 0 || i >= s.len() {
        s.len() as int
    } else if s[i] == '\n' {
        i
    } else {
        newline_at(s, i + 1)
    }
}

/// A raw line with a trailing carriage return loses it.
pub open spec fn strip_cr(l: Seq<char>) -> Seq<char> {
    if l.len() > 0 && l.last() == '\r' {
        l.drop_last()
    } else {
        l
    }
}

/// Newline search stays within the text and never moves backwards.
proof fn lemma_newline_at_bounds(s: Seq<char>, i: int)
    requires
        0 <= i <= s.len(),
    ensures
        i <= newline_at(s, i) <= s.len(),
    decreases s.len() - i,
{
    if i < s.len() && s[i] != '\n' {
        lemma_newline_at_bounds(s, i + 1);
    }
}

/// The text split into lines: each line runs to the next newline, and a
/// trailing carriage return is dropped from it.
pub open spec fn split_lines_from(s: Seq<char>, i: int) -> Seq<Seq<char>>
    decreases s.len() - i,
    when 0 <= i
    via split_lines_decreases
{
    if i >= s.len() {
        Seq::empty()
    } else {
        let k = newline_at(s, i);
        if k >= s.len() {
            seq![strip_cr(s.subrange(i, s.len() as int))]
        } else {
            seq![strip_cr(s.subrange(i, k))] + split_lines_from(s, k + 1)
        }
    }
}

#[via_fn]
proof fn split_lines_decreases(s: Seq<char>, i: int) {
    if 0 <= i && i < s.len() {
        lemma_newline_at_bounds(s, i);
    }
}

/// The first position at or after `i` that is not whitespace.
pub open spec fn ws_end(l: Seq<char>, i: int) -> int
    decreases l.len() - i,
{
    if i < 0 || i >= l.len() {
        l.len() as int
    } else if is_ws_char(l[i]) {
        ws_end(l, i + 1)
    } else {
        i
    }
}

/// The position after the last non-whitespace character strictly before
/// `e`.
pub open spec fn ws_rend(l: Seq<char>, e: int) -> int
    decreases e,
{
    if e <= 0 {
        0
    } else if is_ws_char(l[e - 1]) {
        ws_rend(l, e - 1)
    } else {
        e
    }
}

/// The preprocessed lines among the raw lines from position `i` on: a
/// line survives when its trimmed text is non-empty and does not start
/// a comment, and it keeps its 1-based line number and the column where
/// its trimmed text begins.
pub open spec fn preproc_lines_from(lines: Seq<Seq<char>>, i: int) -> Seq<PreprocLineV>
    decreases lines.len() - i,
{
    if i < 0 || i >= lines.len() {
        Seq::empty()
    } else {
        let l = lines[i];
        let a = ws_end(l, 0);
        let b = ws_rend(l, l.len() as int);
        let rest = preproc_lines_from(lines, i + 1);
        if a < b && l[a] != ';' {
            seq![
                PreprocLineV {
                    content: l.subrange(a, b),
                    orig_line_num: (i + 1) as usize,
                    start_col: a as usize,
                },
            ] + rest
        } else {
            rest
        }
    }
}

/// The characterisation of newline search.
proof fn lemma_newline_at_eq(s: Seq<char>, i: int, j: int)
    requires
        0 <= i <= j <= s.len(),
        forall|m: int| i <= m < j ==> (#[trigger] s[m]) != '\n',
        j < s.len() ==> s[j] == '\n',
    ensures
        newline_at(s, i) == j,
    decreases j - i,
{
    if i < j {
        lemma_newline_at_eq(s, i + 1, j);
    }
}

/// The characterisation of leading-whitespace scanning.
proof fn lemma_ws_end_eq(l: Seq<char>, i: int, j: int)
    requires
        0 <= i <= j <= l.len(),
        forall|m: int| i <= m < j ==> is_ws_char(#[trigger] l[m]),
        j < l.len() ==> !is_ws_char(l[j]),
    ensures
        ws_end(l, i) == j,
    decreases j - i,
{
    if i < j {
        lemma_ws_end_eq(l, i + 1, j);
    }
}

/// The characterisation of trailing-whitespace scanning.
proof fn lemma_ws_rend_eq(l: Seq<char>, e: int, b: int)
    requires
        0 <= b <= e <= l.len(),
        forall|m: int| b <= m < e ==> is_ws_char(#[trigger] l[m]),
        b > 0 ==> !is_ws_char(l[b - 1]),
    ensures
        ws_rend(l, e) == b,
    decreases e - b,
{
    if b < e {
        lemma_ws_rend_eq(l, e - 1, b);
    }
}

/// Splits the text into its raw lines; the result equals
/// [`split_lines_from`] at position 0.
fn split_text_lines(text: &str) -> (r: Vec<String>)
    ensures
        r.deep_view() == split_lines_from(text@, 0),
{
    let ghost tv = text@;
    let n = text.unicode_len();
    let mut lines: Vec<String> = Vec::new();
    let mut i: usize = 0;
    while i < n
        invariant
            i <= n,
            n == tv.len(),
            tv == text@,
            split_lines_from(tv, 0) == lines.deep_view() + split_lines_from(tv, i as int),
        decreases n - i,
    {
        let mut j = i;
        while j < n && text.get_char(j) != '\n'
            invariant
                i <= j <= n,
                n == tv.len(),
                tv == text@,
                forall|m: int| i <= m < j ==> (#[trigger] tv[m]) != '\n',
            decreases n - j,
        {
            j += 1;
        }
        proof {
            lemma_newline_at_eq(tv, i as int, j as int);
        }
        let se = if j > i && text.get_char(j - 1) == '\r' {
            j - 1
        } else {
            j
        };
        let line = text.substring_char(i, se).to_owned();
        proof {
            let raw = tv.subrange(i as int, j as int);
            if se < j {
                assert(raw.len() > 0 && raw.last() == '\r');
                assert(raw.drop_last() =~= tv.subrange(i as int, se as int));
            } else {
                assert(!(raw.len() > 0 && raw.last() == '\r')) by {
                    if raw.len() > 0 {
                        assert(raw.last() == tv[j - 1]);
                    }
                }
            }
            assert(strip_cr(raw) == tv.subrange(i as int, se as int));
        }
        let ghost prevdv = lines.deep_view();
        let ghost lv = line@;
        lines.push(line);
        proof {
            assert(lines.deep_view() =~= prevdv + seq![lv]) by {
                assert forall|m: int|
                    0 <= m < lines@.len() implies (#[trigger] lines@[m]).deep_view() == (prevdv
                    + seq![lv])[m] by {
                    if m < prevdv.len() {
                        assert(lines@[m] == lines@.take(lines@.len() - 1)[m]);
                    } else {
                        assert(lines@[m] == lines@.last());
                    }
                }
            }
            if j < n {
                assert(split_lines_from(tv, i as int) == seq![lv] + split_lines_from(tv, j + 1));
                assert(prevdv + (seq![lv] + split_lines_from(tv, j + 1)) =~= (prevdv + seq![lv])
                    + split_lines_from(tv, j + 1));
            } else {
                assert(split_lines_from(tv, i as int) =~= seq![lv]);
                assert(prevdv + seq![lv] + Seq::<Seq<char>>::empty() =~= prevdv + seq![lv]);
            }
        }
        if j < n {
            i = j + 1;
        } else {
            i = n;
        }
    }
    proof {
        assert(split_lines_from(tv, i as int) =~= Seq::<Seq<char>>::empty());
        assert(lines.deep_view() + Seq::<Seq<char>>::empty() =~= lines.deep_view());
    }
    lines
}

/// Trims and filters the raw lines; the result equals
/// [`preproc_lines_from`] at position 0, and every surviving line's
/// number and columns index back into the raw lines.
fn build_preproc_lines(orig_lines: &Vec<String>) -> (r: Vec<PreprocLine>)
    ensures
        r.deep_view() == preproc_lines_from(orig_lines.deep_view(), 0),
        forall|k: int|
            0 <= k < r.deep_view().len() ==> {
                let pl = #[trigger] r.deep_view()[k];
                &&& 1 <= pl.orig_line_num <= orig_lines.deep_view().len()
                &&& pl.start_col + pl.content.len() <= orig_lines.deep_view()[pl.orig_line_num
                    - 1].len()
            },
{
    let ghost lsv = orig_lines.deep_view();
    let mut out: Vec<PreprocLine> = Vec::new();
    let mut i: usize = 0;
    while i < orig_lines.len()
        invariant
            i <= orig_lines@.len(),
            lsv == orig_lines.deep_view(),
            lsv.len() == orig_lines@.len(),
            preproc_lines_from(lsv, 0) == out.deep_view() + preproc_lines_from(lsv, i as int),
            forall|k: int|
                0 <= k < out.deep_view().len() ==> {
                    let pl = #[trigger] out.deep_view()[k];
                    &&& 1 <= pl.orig_line_num <= lsv.len()
                    &&& pl.start_col + pl.content.len() <= lsv[pl.orig_line_num - 1].len()
                },
        decreases orig_lines@.len() - i,
    {
        proof {
            assert(lsv[i as int] == (orig_lines@[i as int]).deep_view());
        }
        let line: &str = orig_lines[i].as_str();
        let ghost l = line@;
        let m = line.unicode_len();
        let mut a: usize = 0;
        while a < m && char_is_whitespace(line.get_char(a))
            invariant
                a <= m,
                m == l.len(),
                l == line@,
                forall|w: int| 0 <= w < a ==> is_ws_char(#[trigger] l[w]),
            decreases m - a,
        {
            a += 1;
        }
        proof {
            lemma_ws_end_eq(l, 0, a as int);
        }
        let mut b: usize = m;
        while b > a && char_is_whitespace(line.get_char(b - 1))
            invariant
                a <= b <= m,
                m == l.len(),
                l == line@,
                forall|w: int| b <= w < m ==> is_ws_char(#[trigger] l[w]),
            decreases b,
        {
            b -= 1;
        }
        proof {
            if b > a {
                lemma_ws_rend_eq(l, m as int, b as int);
            } else {
                assert(a == m) by {
                    if a < m {
                        assert(is_ws_char(l[a as int]));
                    }
                }
                lemma_ws_rend_eq(l, m as int, 0);
            }
        }
        let keep = b > a && line.get_char(a) != ';';
        if keep {
            let content = line.substring_char(a, b).to_owned();
            let pl = PreprocLine { content, orig_line_num: i + 1, start_col: a };
            let ghost prevdv = out.deep_view();
            let ghost plv = pl.deep_view();
            out.push(pl);
            proof {
                assert(out.deep_view() =~= prevdv + seq![plv]) by {
                    assert forall|w: int|
                        0 <= w < out@.len() implies (#[trigger] out@[w]).deep_view() == (prevdv
                        + seq![plv])[w] by {
                        if w < prevdv.len() {
                            assert(out@[w] == out@.take(out@.len() - 1)[w]);
                        } else {
                            assert(out@[w] == out@.last());
                        }
                    }
                }
                assert(preproc_lines_from(lsv, i as int) == seq![plv] + preproc_lines_from(
                    lsv,
                    i + 1,
                ));
                assert(prevdv + (seq![plv] + preproc_lines_from(lsv, i + 1)) =~= (prevdv + seq![
                    plv,
                ]) + preproc_lines_from(lsv, i + 1));
            }
        } else {
            proof {
                assert(preproc_lines_from(lsv, i as int) == preproc_lines_from(lsv, i + 1));
            }
        }
        i += 1;
    }
    proof {
        assert(preproc_lines_from(lsv, i as int) =~= Seq::<PreprocLineV>::empty());
        assert(out.deep_view() + Seq::<PreprocLineV>::empty() =~= out.deep_view());
    }
    out
}

/// Splits the source text into lines, drops blank and comment lines,
/// and keeps each surviving line's text with its source position. The
/// raw lines equal [`split_lines_from`] and the surviving lines equal
/// [`preproc_lines_from`] over them.
pub fn preprocess(text: &str) -> (r: PreprocSource)
    ensures
        r.orig_lines.deep_view() == split_lines_from(text@, 0),
        r.lines.deep_view() == preproc_lines_from(split_lines_from(text@, 0), 0),
        forall|k: int|
            0 <= k < r.lines.deep_view().len() ==> {
                let pl = #[trigger] r.lines.deep_view()[k];
                &&& 1 <= pl.orig_line_num <= r.orig_lines.deep_view().len()
                &&& pl.start_col + pl.content.len() <= r.orig_lines.deep_view()[pl.orig_line_num
                    - 1].len()
            },
{
    let orig_lines = split_text_lines(text);
    let lines = build_preproc_lines(&orig_lines);
    PreprocSource { lines, orig_lines }
}

} // verus!
