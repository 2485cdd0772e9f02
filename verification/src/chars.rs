//! Byte classification for the mangled-name grammars.
//!
//! Both schemes are defined over a restricted ASCII alphabet: decimal digits
//! for length prefixes, letters and underscores for identifiers, and the
//! base-62 alphanumerics used by disambiguators and back-references.

use vstd::prelude::*;

verus! {

pub open spec fn is_digit(b: u8) -> bool {
    48 <= b && b <= 57
}

pub open spec fn is_lower(b: u8) -> bool {
    97 <= b && b <= 122
}

pub open spec fn is_upper(b: u8) -> bool {
    65 <= b && b <= 90
}

pub open spec fn is_alpha(b: u8) -> bool {
    is_lower(b) || is_upper(b)
}

/// First byte of a non-empty identifier: a letter or an underscore.
pub open spec fn is_ident_start(b: u8) -> bool {
    is_alpha(b) || b == 95
}

/// Any byte of an identifier: a letter, a digit, or an underscore.
pub open spec fn is_ident_char(b: u8) -> bool {
    is_alpha(b) || is_digit(b) || b == 95
}

/// Lower-case hexadecimal digit, as used by legacy hash components.
pub open spec fn is_hex_digit(b: u8) -> bool {
    is_digit(b) || (97 <= b && b <= 102)
}

/// Digit of the base-62 alphabet: `0-9`, then `a-z`, then `A-Z`.
pub open spec fn is_base62_digit(b: u8) -> bool {
    is_digit(b) || is_alpha(b)
}

/// Numeric value of a digit in the base-62 alphabet (also correct for the
/// decimal subset).  Bytes outside the alphabet map to 0.
pub open spec fn digit_val(b: u8) -> nat {
    if is_digit(b) {
        (b - 48) as nat
    } else if is_lower(b) {
        (b - 97 + 10) as nat
    } else if is_upper(b) {
        (b - 65 + 36) as nat
    } else {
        0
    }
}

/// A well-formed identifier body: possibly empty, starting with a letter or
/// underscore, containing only identifier bytes.
pub open spec fn valid_ident_bytes(name: Seq<u8>) -> bool {
    &&& name.len() > 0 ==> is_ident_start(name[0])
    &&& forall|i: int| 0 <= i < name.len() ==> is_ident_char(#[trigger] name[i])
}

pub fn check_digit(b: u8) -> (r: bool)
    ensures
        r == is_digit(b),
{
    48 <= b && b <= 57
}

pub fn check_ident_start(b: u8) -> (r: bool)
    ensures
        r == is_ident_start(b),
{
    (97 <= b && b <= 122) || (65 <= b && b <= 90) || b == 95
}

pub fn check_ident_char(b: u8) -> (r: bool)
    ensures
        r == is_ident_char(b),
{
    (97 <= b && b <= 122) || (65 <= b && b <= 90) || (48 <= b && b <= 57) || b == 95
}

pub fn check_hex_digit(b: u8) -> (r: bool)
    ensures
        r == is_hex_digit(b),
{
    (48 <= b && b <= 57) || (97 <= b && b <= 102)
}

pub fn check_base62_digit(b: u8) -> (r: bool)
    ensures
        r == is_base62_digit(b),
{
    (48 <= b && b <= 57) || (97 <= b && b <= 122) || (65 <= b && b <= 90)
}

pub fn base62_val(b: u8) -> (r: u8)
    requires
        is_base62_digit(b),
    ensures
        r as nat == digit_val(b),
        r < 62,
{
    if 48 <= b && b <= 57 {
        b - 48
    } else if 97 <= b && b <= 122 {
        b - 97 + 10
    } else {
        b - 65 + 36
    }
}

} // verus!
