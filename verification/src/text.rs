//! Character-sequence helpers shared by the tokenizer, the formatters and
//! the error messages: decimal rendering of positions and conversion
//! between `Vec<char>` and `String`.

use vstd::prelude::*;
use vstd::string::StrSliceExecFns;

verus! {

/// The decimal digit character of `n % 10`.
pub open spec fn dec_digit(n: nat) -> char {
    ((48 + (n % 10)) as char)
}

/// The decimal text of `n`, most significant digit first, no sign and no
/// leading zeros (a single `'0'` for zero).
pub open spec fn dec_str(n: nat) -> Seq<char>
    decreases n,
{
    if n < 10 {
        seq![dec_digit(n)]
    } else {
        dec_str(n / 10).push(dec_digit(n))
    }
}

/// Relies on `String: FromIterator<char>`: collecting characters yields a
/// string whose characters are exactly the collected ones, in order.
#[verifier::external_body]
pub(crate) fn chars_to_string(v: &Vec<char>) -> (r: String)
    ensures
        r@ == v@,
{
    v.iter().collect()
}

/// Appends the characters of `s` to `out`.
pub(crate) fn push_str_chars(out: &mut Vec<char>, s: &str)
    ensures
        final(out)@ == old(out)@ + s@,
{
    let n: usize = s.unicode_len();
    let mut i: usize = 0;
    while i < n
        invariant
            i <= n,
            n == s@.len(),
            out@ == old(out)@ + s@.subrange(0, i as int),
        decreases n - i,
    {
        out.push(s.get_char(i));
        i = i + 1;
        proof {
            assert(out@ =~= old(out)@ + s@.subrange(0, i as int));
        }
    }
    proof {
        assert(s@.subrange(0, n as int) =~= s@);
    }
}

/// Compares a character vector with a string slice.
pub(crate) fn vec_eq_str(v: &Vec<char>, s: &str) -> (b: bool)
    ensures
        b == (v@ == s@),
{
    let n: usize = s.unicode_len();
    if v.len() != n {
        return false;
    }
    let mut i: usize = 0;
    while i < n
        invariant
            i <= n,
            n == s@.len(),
            v@.len() == n,
            forall|j: int| 0 <= j < i ==> v@[j] == s@[j],
        decreases n - i,
    {
        if v[i] != s.get_char(i) {
            return false;
        }
        i = i + 1;
    }
    proof {
        assert(v@ =~= s@);
    }
    true
}

/// Compares two string slices by characters.
pub(crate) fn str_eq_str(a: &str, b: &str) -> (r: bool)
    ensures
        r == (a@ == b@),
{
    let n: usize = a.unicode_len();
    let m: usize = b.unicode_len();
    if n != m {
        return false;
    }
    let mut i: usize = 0;
    while i < n
        invariant
            i <= n,
            n == a@.len(),
            n == b@.len(),
            forall|j: int| 0 <= j < i ==> a@[j] == b@[j],
        decreases n - i,
    {
        if a.get_char(i) != b.get_char(i) {
            return false;
        }
        i = i + 1;
    }
    proof {
        assert(a@ =~= b@);
    }
    true
}

/// Appends the characters of `v` to `out`.
pub(crate) fn push_vec_chars(out: &mut Vec<char>, v: &Vec<char>)
    ensures
        final(out)@ == old(out)@ + v@,
{
    let n: usize = v.len();
    let mut i: usize = 0;
    while i < n
        invariant
            i <= n,
            n == v@.len(),
            out@ == old(out)@ + v@.subrange(0, i as int),
        decreases n - i,
    {
        out.push(v[i]);
        i = i + 1;
        proof {
            assert(out@ =~= old(out)@ + v@.subrange(0, i as int));
        }
    }
    proof {
        assert(v@.subrange(0, n as int) =~= v@);
    }
}

/// Appends the decimal text of `n` to `out`.
pub(crate) fn push_dec_chars(out: &mut Vec<char>, n: usize)
    ensures
        final(out)@ == old(out)@ + dec_str(n as nat),
    decreases n,
{
    if n >= 10 {
        push_dec_chars(out, n / 10);
    }
    let d: u8 = (n % 10) as u8;
    out.push((48 + d) as char);
    proof {
        assert((48 + d) as char == dec_digit(n as nat));
        assert(out@ =~= old(out)@ + dec_str(n as nat));
    }
}

} // verus!


verus! {

/// Whether `c` is an ASCII decimal digit.
pub open spec fn is_ascii_digit_char(c: char) -> bool {
    48 <= c as u32 && c as u32 <= 57
}

/// Whether a character run ends in an exponent marker with no digits: a
/// trailing 'e' or 'E', alone or followed only by a sign. The tokenizer
/// rejects such a run as a number; the lenient parser behind
/// `spec_parse_f64` (binutils-style) would read the missing exponent as
/// zero.
pub open spec fn empty_exponent(s: Seq<char>) -> bool {
    ||| (s.len() >= 1 && (s[s.len() - 1] == 'e' || s[s.len() - 1] == 'E'))
    ||| (s.len() >= 2 && (s[s.len() - 2] == 'e' || s[s.len() - 2] == 'E') && (s[s.len() - 1] == '+'
        || s[s.len() - 1] == '-'))
}

/// The characters the number scanner consumes greedily: ASCII digits and
/// the punctuation of decimal and exponent syntax.
pub open spec fn is_number_char(c: char) -> bool {
    is_ascii_digit_char(c) || c == '.' || c == '-' || c == 'e' || c == 'E' || c == '+'
}

/// The 25 characters with the Unicode `White_Space` property.
pub open spec fn is_json_whitespace(c: char) -> bool {
    ||| (9 <= c as u32 && c as u32 <= 13)
    ||| c == ' '
    ||| c as u32 == 0x85
    ||| c as u32 == 0xa0
    ||| c as u32 == 0x1680
    ||| (0x2000 <= c as u32 && c as u32 <= 0x200a)
    ||| c as u32 == 0x2028
    ||| c as u32 == 0x2029
    ||| c as u32 == 0x202f
    ||| c as u32 == 0x205f
    ||| c as u32 == 0x3000
}

/// What `char::is_alphabetic` returns beyond ASCII: the Unicode letter
/// categories, named rather than spelled out.
pub uninterp spec fn is_alphabetic_non_ascii(c: char) -> bool;

/// Whether `c` is alphabetic in the sense of `char::is_alphabetic`: on
/// ASCII exactly the letters, beyond ASCII the named Unicode property.
pub open spec fn is_alphabetic_char(c: char) -> bool {
    if (c as u32) < 128 {
        (97 <= c as u32 && c as u32 <= 122) || (65 <= c as u32 && c as u32 <= 90)
    } else {
        is_alphabetic_non_ascii(c)
    }
}

/// Relies on `char::is_whitespace`: true exactly for the characters with
/// the Unicode `White_Space` property, the list in `is_json_whitespace`.
#[verifier::external_body]
pub(crate) fn char_is_whitespace(c: char) -> (r: bool)
    ensures
        r == is_json_whitespace(c),
{
    c.is_whitespace()
}

/// Relies on `char::is_alphabetic`: on ASCII it holds exactly for
/// 'a'..='z' and 'A'..='Z'; beyond ASCII the result is the named property
/// `is_alphabetic_non_ascii`.
#[verifier::external_body]
pub(crate) fn char_is_alphabetic(c: char) -> (r: bool)
    ensures
        r == is_alphabetic_char(c),
        c as u32 >= 128 ==> r == is_alphabetic_non_ascii(c),
{
    c.is_alphabetic()
}

/// Whether `v` is a Unicode scalar value: a code point that is a `char`.
pub open spec fn is_scalar_value(v: u32) -> bool {
    (v < 0xd800) || (0xe000 <= v && v <= 0x10ffff)
}

/// Relies on `char::from_u32`: `Some` exactly for Unicode scalar values,
/// holding the character with that code point.
#[verifier::external_body]
pub(crate) fn char_from_u32(v: u32) -> (r: Option<char>)
    ensures
        r is Some <==> is_scalar_value(v),
        r matches Some(c) ==> c == (v as char),
{
    char::from_u32(v)
}

/// Whether `c` is an ASCII hexadecimal digit, either case.
pub open spec fn is_hex_digit_char(c: char) -> bool {
    is_ascii_digit_char(c) || (97 <= c as u32 && c as u32 <= 102) || (65 <= c as u32 && c as u32
        <= 70)
}

/// The numeric value of the hexadecimal digit `c`.
pub open spec fn hex_digit_val(c: char) -> nat {
    if is_ascii_digit_char(c) {
        (c as u32 - 48) as nat
    } else if 97 <= c as u32 && c as u32 <= 102 {
        (c as u32 - 87) as nat
    } else if 65 <= c as u32 && c as u32 <= 70 {
        (c as u32 - 55) as nat
    } else {
        0
    }
}

/// Reads `c` as a hexadecimal digit.
pub(crate) fn hex_digit_value(c: char) -> (r: Option<u8>)
    ensures
        r is Some <==> is_hex_digit_char(c),
        r matches Some(v) ==> v as nat == hex_digit_val(c) && v < 16,
{
    let u: u32 = c as u32;
    if 48 <= u && u <= 57 {
        Some((u - 48) as u8)
    } else if 97 <= u && u <= 102 {
        Some((u - 87) as u8)
    } else if 65 <= u && u <= 70 {
        Some((u - 55) as u8)
    } else {
        None
    }
}

} // verus!
