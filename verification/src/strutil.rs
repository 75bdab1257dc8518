//! Small verified string helpers used across the assembler.

use vstd::prelude::*;
use vstd::string::StrSliceExecFns;
use vstd::string::StringExecFns;

verus! {

/// Character-for-character equality of two string slices.
pub fn str_eq(a: &str, b: &str) -> (r: bool)
    ensures
        r == (a@ == b@),
{
    let alen = a.unicode_len();
    let blen = b.unicode_len();
    if alen != blen {
        return false;
    }
    let mut i: usize = 0;
    while i < alen
        invariant
            alen == a@.len(),
            alen == b@.len(),
            i <= alen,
            forall|j: int| 0 <= j < i ==> a@[j] == b@[j],
        decreases alen - i,
    {
        if a.get_char(i) != b.get_char(i) {
            return false;
        }
        i += 1;
    }
    proof {
        assert(a@ =~= b@);
    }
    true
}

/// Whether the string starts with the given character.
pub fn str_starts_with_char(s: &str, c: char) -> (r: bool)
    ensures
        r == (s@.len() > 0 && s@[0] == c),
{
    if s.unicode_len() == 0 {
        return false;
    }
    s.get_char(0) == c
}

/// `a + b + c`, assembled from owned and borrowed pieces.
pub fn concat3(a: &str, b: &str, c: &str) -> (r: String)
    ensures
        r@ == a@ + b@ + c@,
{
    let mut s = a.to_owned();
    s.append(b);
    s.append(c);
    s
}

/// The decimal digit character of a value below ten.
pub open spec fn dec_digit(d: int) -> char {
    if d == 0 {
        '0'
    } else if d == 1 {
        '1'
    } else if d == 2 {
        '2'
    } else if d == 3 {
        '3'
    } else if d == 4 {
        '4'
    } else if d == 5 {
        '5'
    } else if d == 6 {
        '6'
    } else if d == 7 {
        '7'
    } else if d == 8 {
        '8'
    } else {
        '9'
    }
}

/// The decimal notation of a natural number, most significant digit
/// first, without leading zeros (a single zero for the number zero).
pub open spec fn dec_str(n: nat) -> Seq<char>
    decreases n,
{
    if n < 10 {
        seq![dec_digit(n as int)]
    } else {
        dec_str(n / 10) + seq![dec_digit((n % 10) as int)]
    }
}

/// The one-character string of a decimal digit.
fn dec_char_str(d: u64) -> (r: &'static str)
    requires
        d < 10,
    ensures
        r@ == seq![dec_digit(d as int)],
{
    let r: &'static str = match d {
        0 => "0",
        1 => "1",
        2 => "2",
        3 => "3",
        4 => "4",
        5 => "5",
        6 => "6",
        7 => "7",
        8 => "8",
        _ => "9",
    };
    proof {
        reveal_strlit("0");
        reveal_strlit("1");
        reveal_strlit("2");
        reveal_strlit("3");
        reveal_strlit("4");
        reveal_strlit("5");
        reveal_strlit("6");
        reveal_strlit("7");
        reveal_strlit("8");
        reveal_strlit("9");
        assert(r@ =~= seq![dec_digit(d as int)]);
    }
    r
}

/// The decimal notation of a number, as a string.
pub fn u64_dec_string(n: u64) -> (r: String)
    ensures
        r@ == dec_str(n as nat),
    decreases n,
{
    if n < 10 {
        dec_char_str(n).to_owned()
    } else {
        let mut s = u64_dec_string(n / 10);
        s.append(dec_char_str(n % 10));
        s
    }
}

/// What `char::is_alphabetic` holds of a character; the result depends
/// on the character alone.
pub uninterp spec fn is_alpha_char(c: char) -> bool;

/// Relies on char::is_alphabetic: whether the character is a letter.
#[verifier::external_body]
pub(crate) fn char_is_alphabetic(c: char) -> (r: bool)
    ensures
        r == is_alpha_char(c),
{
    c.is_alphabetic()
}

/// What `char::is_alphanumeric` holds of a character; the result
/// depends on the character alone.
pub uninterp spec fn is_alnum_char(c: char) -> bool;

/// Relies on char::is_alphanumeric: whether the character is a letter
/// or a digit.
#[verifier::external_body]
pub(crate) fn char_is_alphanumeric(c: char) -> (r: bool)
    ensures
        r == is_alnum_char(c),
{
    c.is_alphanumeric()
}

/// What `char::is_whitespace` holds of a character; the result depends
/// on the character alone.
pub uninterp spec fn is_ws_char(c: char) -> bool;

/// Relies on char::is_whitespace: whether the character is whitespace.
#[verifier::external_body]
pub(crate) fn char_is_whitespace(c: char) -> (r: bool)
    ensures
        r == is_ws_char(c),
{
    c.is_whitespace()
}

/// The value of one digit character under the given radix, over the
/// full alphanumeric digit alphabet.
pub open spec fn digit_val(c: char, radix: u32) -> Option<u32> {
    let u = c as u32;
    let v: u32 = if 48 <= u <= 57 {
        (u - 48) as u32
    } else if 97 <= u <= 122 {
        (u - 87) as u32
    } else if 65 <= u <= 90 {
        (u - 55) as u32
    } else {
        99
    };
    if v < radix {
        Some(v)
    } else {
        None
    }
}

/// The partial value of the digits from position `i` on, accumulated
/// onto `acc`; `None` for a malformed digit or a value above `i64::MAX`.
pub open spec fn parse_radix_from(s: Seq<char>, i: int, acc: int, radix: u32) -> Option<i64>
    decreases s.len() - i,
{
    if i < 0 || i >= s.len() {
        Some(acc as i64)
    } else {
        match digit_val(s[i], radix) {
            None => None,
            Some(d) => {
                let acc2 = acc * radix + d;
                if acc2 > i64::MAX {
                    None
                } else {
                    parse_radix_from(s, i + 1, acc2, radix)
                }
            },
        }
    }
}

/// The numeric value of an unsigned digit string under the given radix,
/// or `None` when it is empty, holds a malformed digit, or overflows a
/// signed 64-bit value.
pub open spec fn parse_radix(s: Seq<char>, radix: u32) -> Option<i64> {
    if s.len() == 0 {
        None
    } else {
        parse_radix_from(s, 0, 0, radix)
    }
}

/// The value of one digit character; see [`digit_val`].
fn digit_val_exec(c: char, radix: u32) -> (r: Option<u32>)
    requires
        radix == 10 || radix == 16,
    ensures
        r == digit_val(c, radix),
{
    let u = c as u32;
    let v: u32 = if 48 <= u && u <= 57 {
        u - 48
    } else if 97 <= u && u <= 122 {
        u - 87
    } else if 65 <= u && u <= 90 {
        u - 55
    } else {
        99
    };
    if v < radix {
        Some(v)
    } else {
        None
    }
}

/// Parses an unsigned digit string; the result equals [`parse_radix`].
pub fn parse_radix_exec(s: &str, radix: u32) -> (r: Option<i64>)
    requires
        radix == 10 || radix == 16,
    ensures
        r == parse_radix(s@, radix),
{
    let n = s.unicode_len();
    if n == 0 {
        return None;
    }
    let mut acc: i64 = 0;
    let mut i: usize = 0;
    while i < n
        invariant
            radix == 10 || radix == 16,
            i <= n,
            n == s@.len(),
            0 <= acc <= i64::MAX,
            parse_radix_from(s@, 0, 0, radix) == parse_radix_from(s@, i as int, acc as int, radix),
        decreases n - i,
    {
        let c = s.get_char(i);
        let d = match digit_val_exec(c, radix) {
            Some(d) => d,
            None => {
                return None;
            },
        };
        let acc2 = match acc.checked_mul(radix as i64) {
            Some(m) => match m.checked_add(d as i64) {
                Some(a) => a,
                None => {
                    return None;
                },
            },
            None => {
                return None;
            },
        };
        acc = acc2;
        i += 1;
    }
    Some(acc)
}

} // verus!
