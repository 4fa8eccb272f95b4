//! Number text. JSON numbers are IEEE-754 doubles; Verus has no view of
//! floating point, so the codec carries each number as its 64-bit pattern
//! and delegates the text conversions to `rustc_apfloat`, a pure-software
//! IEEE-754 implementation whose interface speaks in bit patterns.

use vstd::prelude::*;

use crate::text::{empty_exponent, is_ascii_digit_char, is_number_char};

verus! {

/// What parsing text as a double returns: the bit pattern of the correctly
/// rounded value, or `None` where the text is not number syntax.
pub uninterp spec fn spec_parse_f64(s: Seq<char>) -> Option<u64>;

/// What rendering the double with bit pattern `bits` at `precision`
/// significant digits returns.
pub uninterp spec fn spec_f64_text_prec(bits: u64, precision: nat) -> Seq<char>;

/// Whether `bits` is the pattern of a finite double: exponent field not
/// all ones.
pub open spec fn is_finite_bits(bits: u64) -> bool {
    (bits >> 52) & 0x7ff != 0x7ff
}

/// Relies on `rustc_apfloat::ieee::Double`'s `FromStr` (round to nearest
/// even): the correctly rounded IEEE-754 binary64 value of the text, a
/// function of the characters alone; `to_bits` only transports it. Accepts
/// decimal and exponent syntax, `Err` on anything else; overflow rounds to
/// infinity rather than failing.
#[verifier::external_body]
pub(crate) fn parse_number_text(s: &str) -> (r: Option<u64>)
    ensures
        r == spec_parse_f64(s@),
{
    match s.parse::<rustc_apfloat::ieee::Double>() {
        Ok(v) => Some(rustc_apfloat::Float::to_bits(v) as u64),
        Err(_) => None,
    }
}

/// Relies on `Display for rustc_apfloat::ieee::Double` with an explicit
/// precision in significant digits: the text is a function of value and
/// precision alone. For finite values it is an optional leading '-', then
/// digits, at most one '.', and an optional signed 'E' exponent whose
/// digits are always written, so the text never ends in a bare marker or
/// sign; 17 digits are its own round-trip precision for a double, so that
/// text parses back to the same bit pattern, as its source states.
#[verifier::external_body]
pub(crate) fn number_text_prec(bits: u64, precision: usize) -> (r: String)
    ensures
        r@ == spec_f64_text_prec(bits, precision as nat),
        is_finite_bits(bits) ==> r@.len() > 0,
        is_finite_bits(bits) ==> (r@[0] == '-' || is_ascii_digit_char(r@[0])),
        is_finite_bits(bits) ==> (forall|i: int|
            0 <= i < r@.len() ==> is_number_char(#[trigger] r@[i])),
        is_finite_bits(bits) ==> !empty_exponent(r@),
        is_finite_bits(bits) && precision == 17 ==> spec_parse_f64(r@) == Some(bits),
{
    let v = <rustc_apfloat::ieee::Double as rustc_apfloat::Float>::from_bits(bits as u128);
    format!("{:.*}", precision, v)
}

/// Whether the text of `bits` at `precision` digits parses back to `bits`.
pub open spec fn number_text_roundtrips(bits: u64, precision: nat) -> bool {
    spec_parse_f64(spec_f64_text_prec(bits, precision)) == Some(bits)
}

/// The number text the formatters emit for `bits`, searching upward from
/// precision `p`: the first precision up to 17 whose text parses back to
/// the same bit pattern, 17 itself where none below it does.
pub open spec fn spec_number_text_from(bits: u64, p: nat) -> Seq<char>
    decreases 18 - p,
{
    if p > 17 {
        spec_f64_text_prec(bits, 17)
    } else if number_text_roundtrips(bits, p) {
        spec_f64_text_prec(bits, p)
    } else {
        spec_number_text_from(bits, p + 1)
    }
}

/// The number text the compact and indented formatters emit for `bits`:
/// the fewest significant digits that still parse back to the same bit
/// pattern.
pub open spec fn spec_number_text(bits: u64) -> Seq<char> {
    spec_number_text_from(bits, 1)
}

/// The facts the formatters need of a finite number's text: it parses back
/// to the same bits, and it is a nonempty run of number characters opening
/// with a digit or a minus sign.
pub open spec fn num_ok(bits: u64) -> bool {
    &&& spec_parse_f64(spec_number_text(bits)) == Some(bits)
    &&& !empty_exponent(spec_number_text(bits))
    &&& spec_number_text(bits).len() > 0
    &&& (spec_number_text(bits)[0] == '-' || is_ascii_digit_char(spec_number_text(bits)[0]))
    &&& (forall|i: int|
        0 <= i < spec_number_text(bits).len() ==> is_number_char(#[trigger] spec_number_text(bits)[i]))
}

/// Renders `bits` with the fewest significant digits that parse back to
/// the same bit pattern.
pub fn format_number(bits: u64) -> (r: String)
    ensures
        r@ == spec_number_text(bits),
        is_finite_bits(bits) ==> num_ok(bits),
{
    let mut p: usize = 1;
    while p <= 17
        invariant
            1 <= p <= 18,
            spec_number_text(bits) == spec_number_text_from(bits, p as nat),
            forall|q: nat| 1 <= q < p ==> !number_text_roundtrips(bits, q),
        decreases 18 - p,
    {
        let t = number_text_prec(bits, p);
        let parsed_back = parse_number_text(t.as_str());
        if let Some(b2) = parsed_back {
            if b2 == bits {
                return t;
            }
        }
        p = p + 1;
    }
    let t = number_text_prec(bits, 17);
    t
}

} // verus!
