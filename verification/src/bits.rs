//! The IEEE-754 double-precision bit layout: a 64-bit pattern split into a
//! sign bit, an 11-bit biased exponent and a 52-bit significand field.
//!
//! All functions work on the raw `u64` bit pattern; conversion between an
//! `f64` and its bits is left to callers.

use vstd::prelude::*;

verus! {

use vstd::arithmetic::div_mod::lemma_fundamental_div_mod;
use vstd::arithmetic::div_mod::lemma_fundamental_div_mod_converse;
use vstd::arithmetic::div_mod::lemma_mod_breakdown;

/// Bit pattern of the canonical quiet NaN.
pub const NAN_BITS: u64 = 0x7ff8_0000_0000_0000;

/// Bit pattern of positive infinity.
pub const POS_INF_BITS: u64 = 0x7ff0_0000_0000_0000;

/// The sign bit of a double bit pattern: 0 for positive, 1 for negative.
pub open spec fn sign_field(b: u64) -> int {
    b as int / 0x8000_0000_0000_0000
}

/// The 11-bit biased exponent field of a double bit pattern.
pub open spec fn exp_field(b: u64) -> int {
    (b as int / 0x10_0000_0000_0000) % 0x800
}

/// The 52-bit significand field of a double bit pattern.
pub open spec fn frac_field(b: u64) -> int {
    b as int % 0x10_0000_0000_0000
}

/// The pattern encodes a NaN: exponent field all ones, significand nonzero.
pub open spec fn is_nan_bits(b: u64) -> bool {
    exp_field(b) == 0x7ff && frac_field(b) != 0
}

/// The pattern encodes a zero of either sign.
pub open spec fn is_zero_bits(b: u64) -> bool {
    exp_field(b) == 0 && frac_field(b) == 0
}

/// The integer significand of the magnitude of a finite double: the stored
/// significand field with the implicit leading bit made explicit for normal
/// numbers. The magnitude of the encoded value is `val_mant(b) * 2^val_exp(b)`.
pub open spec fn val_mant(b: u64) -> int {
    if exp_field(b) == 0 {
        frac_field(b)
    } else {
        frac_field(b) + 0x10_0000_0000_0000
    }
}

/// The base-two exponent that scales `val_mant` in the magnitude of a finite
/// double: subnormals sit at the fixed scale 2^-1074, normal numbers carry
/// their biased exponent minus 1075 (bias 1023 plus the 52 significand bits).
pub open spec fn val_exp(b: u64) -> int {
    if exp_field(b) == 0 {
        -1074
    } else {
        exp_field(b) - 1075
    }
}

/// Every double bit pattern is exactly the weighted sum of its three fields.
///
/// Together with the contracts of [`parts`] and [`from_parts`] this is the
/// round-trip law: decomposing a pattern and recomposing the pieces gives the
/// original pattern back, for every input, subnormals and signed zeros
/// included.
pub proof fn lemma_parts_round_trip(b: u64)
    ensures
        sign_field(b) * 0x8000_0000_0000_0000 + exp_field(b) * 0x10_0000_0000_0000 + frac_field(b)
            == b,
{
    let x = b as int;
    lemma_fundamental_div_mod(x, 0x8000_0000_0000_0000);
    lemma_mod_breakdown(x, 0x10_0000_0000_0000, 0x800);
}

/// The fields of a pattern assembled from in-range pieces are those pieces.
pub(crate) proof fn lemma_compose_fields(r: u64, s: int, e: int, f: int)
    requires
        0 <= s <= 1,
        0 <= e < 0x800,
        0 <= f < 0x10_0000_0000_0000,
        r == s * 0x8000_0000_0000_0000 + e * 0x10_0000_0000_0000 + f,
    ensures
        sign_field(r) == s,
        exp_field(r) == e,
        frac_field(r) == f,
{
    let x = r as int;
    lemma_fundamental_div_mod_converse(
        x,
        0x8000_0000_0000_0000,
        s,
        e * 0x10_0000_0000_0000 + f,
    );
    lemma_fundamental_div_mod_converse(x, 0x10_0000_0000_0000, s * 0x800 + e, f);
    lemma_fundamental_div_mod_converse(s * 0x800 + e, 0x800, s, e);
}

/// Splits a double bit pattern into its sign, biased exponent and significand
/// fields.
pub fn parts(bits: u64) -> (r: (u8, u16, u64))
    ensures
        r.0 as int == sign_field(bits),
        r.1 as int == exp_field(bits),
        r.2 as int == frac_field(bits),
        bits == r.0 as int * 0x8000_0000_0000_0000 + r.1 as int * 0x10_0000_0000_0000 + r.2 as int,
{
    let sign = (bits / 0x8000_0000_0000_0000) as u8;
    let exponent = ((bits / 0x10_0000_0000_0000) % 0x800) as u16;
    let significand = bits % 0x10_0000_0000_0000;
    proof {
        lemma_parts_round_trip(bits);
    }
    (sign, exponent, significand)
}

/// Reassembles a double bit pattern from a sign, a biased exponent and a
/// significand. Out-of-range arguments contribute only their low bit
/// (sign), low 11 bits (exponent) or low 52 bits (significand), as in the
/// widening-shift-and-or formulation.
pub fn from_parts(sign: u8, exponent: u16, significand: u64) -> (r: u64)
    ensures
        r == (sign % 2) as int * 0x8000_0000_0000_0000 + (exponent % 0x800) as int
            * 0x10_0000_0000_0000 + significand as int % 0x10_0000_0000_0000,
        sign_field(r) == sign % 2,
        exp_field(r) == exponent % 0x800,
        frac_field(r) == significand as int % 0x10_0000_0000_0000,
{
    let s = (sign % 2) as u64;
    let e = (exponent % 0x800) as u64;
    let f = significand % 0x10_0000_0000_0000;
    let r = s * 0x8000_0000_0000_0000 + e * 0x10_0000_0000_0000 + f;
    proof {
        lemma_compose_fields(r, s as int, e as int, f as int);
    }
    r
}

} // verus!
