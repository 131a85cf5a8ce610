//! Correctly rounded square root on IEEE-754 double-precision bit patterns,
//! computed with the classic digit-by-digit (nonrestoring) integer algorithm:
//! the input is normalized to an integer significand, one bit of the root is
//! extracted per iteration against a running remainder, and a final
//! round-to-nearest-even correction fixes the low bit.

use vstd::prelude::*;

verus! {

use vstd::arithmetic::power2::pow2;
use vstd::arithmetic::power2::lemma2_to64;
use vstd::arithmetic::power2::lemma2_to64_rest;
use vstd::arithmetic::power2::lemma_pow2_adds;
use vstd::arithmetic::power2::lemma_pow2_pos;
use vstd::arithmetic::power2::lemma_pow2_strictly_increases;
use vstd::arithmetic::div_mod::lemma_fundamental_div_mod;
use crate::bits::sign_field;
use crate::bits::exp_field;
use crate::bits::frac_field;
use crate::bits::val_mant;
use crate::bits::val_exp;
use crate::bits::is_nan_bits;
use crate::bits::is_zero_bits;
use crate::bits::lemma_parts_round_trip;
use crate::bits::lemma_compose_fields;
use crate::bits::NAN_BITS;
use crate::bits::POS_INF_BITS;

/// `a * 2^ea < b * 2^eb`, stated without leaving the integers: the side with
/// the larger exponent is scaled up by the (nonnegative) exponent difference.
pub open spec fn scaled_lt(a: int, ea: int, b: int, eb: int) -> bool {
    if ea >= eb {
        a * pow2((ea - eb) as nat) < b
    } else {
        a < b * pow2((eb - ea) as nat)
    }
}

/// `rb` is the round-to-nearest square root of the positive real number
/// `xm * 2^xe`: it is a positive normal double pattern with significand
/// `p = frac_field(rb) + 2^52` and value `p * 2^(re - 52)`, and the true root
/// lies strictly inside the nearest-neighbour window around that value:
/// above `(p - 1/2) * 2^(re - 52)` and below `(p + 1/2) * 2^(re - 52)`,
/// stated on the squares so that everything stays in the integers. When `p`
/// is exactly 2^52 the representable value just below sits in the binade
/// underneath, where the spacing is halved, so the window then reaches only
/// a quarter-ulp down: above `(p - 1/4) * 2^(re - 52)`.
///
/// A tie (the root exactly on a window edge) cannot occur: such a root would
/// be an odd integer scaled by a power of two, and its square would need
/// more than the 53 significand bits a double provides. The strict window
/// condition therefore coincides with IEEE-754 round-to-nearest-even, it
/// holds of an exactly representable root with `p` itself, and
/// [`lemma_sqrt_of_unique`] shows that it pins the result pattern completely.
pub open spec fn is_sqrt_of(xm: int, xe: int, rb: u64) -> bool {
    let p = frac_field(rb) + 0x10_0000_0000_0000;
    let re = exp_field(rb) - 1075;
    &&& sign_field(rb) == 0
    &&& 0 < exp_field(rb) < 0x7ff
    &&& (if frac_field(rb) == 0 {
        scaled_lt((4 * p - 1) * (4 * p - 1), 2 * re - 4, xm, xe)
    } else {
        scaled_lt((2 * p - 1) * (2 * p - 1), 2 * re - 2, xm, xe)
    })
    &&& scaled_lt(xm, xe, (2 * p + 1) * (2 * p + 1), 2 * re - 2)
}

/// Powers of two adjacent to `2^(53 - j)`, phrased for the root-extraction
/// loop with weight `2^(53 - j)` at iteration `j`.
proof fn lemma_pow2_ladder(j: nat)
    requires
        j < 54,
    ensures
        pow2((54 - j) as nat) == 2 * pow2((53 - j) as nat),
        pow2((55 - j) as nat) == 4 * pow2((53 - j) as nat),
        j < 53 ==> pow2((53 - j) as nat) == 2 * pow2((52 - j) as nat),
        pow2((53 - j) as nat) >= 1,
        pow2((j + 1) as nat) == 2 * pow2(j),
        pow2(j) >= 1,
{
    lemma_pow2_pos((53 - j) as nat);
    lemma_pow2_pos(j);
    lemma2_to64();
    lemma_pow2_adds((53 - j) as nat, 1);
    lemma_pow2_adds((54 - j) as nat, 1);
    lemma_pow2_adds(j, 1);
    if j < 53 {
        lemma_pow2_adds((52 - j) as nat, 1);
    }
}

/// One accepted bit of the nonrestoring root extraction: subtracting
/// `t = (4q + 1) * 2^(53 - j)` from the remainder and doubling it moves the
/// partial root from `q` to `2q + 1` while preserving the remainder
/// invariant and its bound.
proof fn lemma_step_accept(x0: int, j: nat, qq: int, sig: int, p53: int)
    requires
        j < 54,
        p53 == pow2((53 - j) as nat),
        0 <= qq < pow2(j),
        sig == pow2(j) * x0 - qq * qq * (4 * p53),
        sig < (2 * qq + 1) * (4 * p53),
        (4 * qq + 1) * p53 <= sig,
    ensures
        2 * (sig - (4 * qq + 1) * p53) == pow2((j + 1) as nat) * x0 - ((2 * qq + 1) * (2 * qq + 1))
            * (2 * p53),
        2 * (sig - (4 * qq + 1) * p53) < (2 * (2 * qq + 1) + 1) * (2 * p53),
        2 * (sig - (4 * qq + 1) * p53) < 0x100_0000_0000_0000,
        0 <= 2 * qq + 1 < pow2((j + 1) as nat),
        qq * (2 * p53) + p53 == (2 * qq + 1) * p53,
        (4 * qq + 1) * p53 + p53 == 2 * ((2 * qq + 1) * p53),
        (2 * qq + 1) * p53 < 0x40_0000_0000_0000,
{
    lemma_pow2_ladder(j);
    lemma_pow2_adds(j, (53 - j) as nat);
    lemma2_to64_rest();
    assert(pow2(j) * p53 == 0x20_0000_0000_0000);
    assert(2 * (sig - (4 * qq + 1) * p53) == 2 * (pow2(j) * x0) - ((2 * qq + 1) * (2 * qq + 1)) * (
    2 * p53)) by (nonlinear_arith)
        requires
            sig == pow2(j) * x0 - qq * qq * (4 * p53),
    ;
    assert(2 * (pow2(j) * x0) == pow2((j + 1) as nat) * x0) by (nonlinear_arith)
        requires
            pow2((j + 1) as nat) == 2 * pow2(j),
    ;
    assert(2 * (sig - (4 * qq + 1) * p53) < (2 * (2 * qq + 1) + 1) * (2 * p53)) by (nonlinear_arith)
        requires
            sig < (2 * qq + 1) * (4 * p53),
    ;
    assert((2 * (2 * qq + 1) + 1) * (2 * p53) <= 0x100_0000_0000_0000) by (nonlinear_arith)
        requires
            0 <= qq < pow2(j),
            p53 == pow2((53 - j) as nat),
            pow2(j) * p53 == 0x20_0000_0000_0000,
            p53 >= 1,
    ;
    assert(qq * (2 * p53) + p53 == (2 * qq + 1) * p53) by (nonlinear_arith);
    assert((4 * qq + 1) * p53 + p53 == 2 * ((2 * qq + 1) * p53)) by (nonlinear_arith);
    assert((2 * qq + 1) * p53 < 0x40_0000_0000_0000) by (nonlinear_arith)
        requires
            0 <= qq < pow2(j),
            p53 == pow2((53 - j) as nat),
            pow2(j) * p53 == 0x20_0000_0000_0000,
            p53 >= 1,
    ;
}

/// One rejected bit of the nonrestoring root extraction: doubling the
/// remainder moves the partial root from `q` to `2q` while preserving the
/// remainder invariant and its bound.
proof fn lemma_step_reject(x0: int, j: nat, qq: int, sig: int, p53: int)
    requires
        j < 54,
        p53 == pow2((53 - j) as nat),
        0 <= qq < pow2(j),
        sig == pow2(j) * x0 - qq * qq * (4 * p53),
        sig < (4 * qq + 1) * p53,
        sig >= 0,
    ensures
        2 * sig == pow2((j + 1) as nat) * x0 - ((2 * qq) * (2 * qq)) * (2 * p53),
        2 * sig < (2 * (2 * qq) + 1) * (2 * p53),
        2 * sig < 0x100_0000_0000_0000,
        0 <= 2 * qq < pow2((j + 1) as nat),
        qq * (2 * p53) == (2 * qq) * p53,
{
    lemma_pow2_ladder(j);
    lemma_pow2_adds(j, (53 - j) as nat);
    lemma2_to64_rest();
    assert(pow2(j) * p53 == 0x20_0000_0000_0000);
    assert(2 * sig == 2 * (pow2(j) * x0) - ((2 * qq) * (2 * qq)) * (2 * p53)) by (nonlinear_arith)
        requires
            sig == pow2(j) * x0 - qq * qq * (4 * p53),
    ;
    assert(2 * (pow2(j) * x0) == pow2((j + 1) as nat) * x0) by (nonlinear_arith)
        requires
            pow2((j + 1) as nat) == 2 * pow2(j),
    ;
    assert(2 * sig < (2 * (2 * qq) + 1) * (2 * p53)) by (nonlinear_arith)
        requires
            sig < (4 * qq + 1) * p53,
    ;
    assert((2 * (2 * qq) + 1) * (2 * p53) <= 0x100_0000_0000_0000) by (nonlinear_arith)
        requires
            0 <= qq < pow2(j),
            p53 == pow2((53 - j) as nat),
            pow2(j) * p53 == 0x20_0000_0000_0000,
            p53 >= 1,
    ;
    assert(qq * (2 * p53) == (2 * qq) * p53) by (nonlinear_arith);
}

/// The integer root of `nn = 2^54 * m2` lies between 2^53 and 2^54 - 2 when
/// the doubled significand `m2` is in its working range.
proof fn lemma_root_interval(nn: int, qq: int, m2: int)
    requires
        nn == 0x40_0000_0000_0000 * m2,
        0x10_0000_0000_0000 <= m2 <= 0x3F_FFFF_FFFF_FFFE,
        0 <= qq,
        qq * qq <= nn,
        nn < (qq + 1) * (qq + 1),
    ensures
        0x20_0000_0000_0000 <= qq <= 0x3F_FFFF_FFFF_FFFE,
{
    assert(qq >= 0x20_0000_0000_0000) by (nonlinear_arith)
        requires
            nn == 0x40_0000_0000_0000 * m2,
            m2 >= 0x10_0000_0000_0000,
            qq >= 0,
            nn < (qq + 1) * (qq + 1),
    ;
    assert(qq <= 0x3F_FFFF_FFFF_FFFE) by (nonlinear_arith)
        requires
            nn == 0x40_0000_0000_0000 * m2,
            m2 <= 0x3F_FFFF_FFFF_FFFE,
            qq >= 0,
            qq * qq <= nn,
    ;
}

/// Round-to-nearest-even on the guard bit: with `qq` the integer root of the
/// even number `nn` (`qq^2 <= nn < (qq+1)^2`), dropping the guard bit after
/// adding it back in when the result is inexact and odd yields a significand
/// `p` whose half-ulp window strictly contains the true root.
proof fn lemma_round_bits(nn: int, qq: int, p: int)
    requires
        0x20_0000_0000_0000 <= qq <= 0x3F_FFFF_FFFF_FFFE,
        qq * qq <= nn,
        nn < (qq + 1) * (qq + 1),
        nn % 2 == 0,
        qq * qq == nn ==> p == qq / 2,
        qq * qq != nn ==> p == (qq + qq % 2) / 2,
    ensures
        0x10_0000_0000_0000 <= p < 0x20_0000_0000_0000,
        (2 * p - 1) * (2 * p - 1) < nn,
        nn < (2 * p + 1) * (2 * p + 1),
        p == 0x10_0000_0000_0000 ==> (4 * p - 1) * (4 * p - 1) < 4 * nn,
{
    lemma_fundamental_div_mod(qq, 2);
    // An odd root has an odd square, which the even radicand rules out.
    if qq % 2 == 1 {
        let a = qq / 2;
        assert(qq * qq == 2 * (2 * a * a + 2 * a) + 1) by (nonlinear_arith)
            requires
                qq == 2 * a + 1,
        ;
    }
    if p == 0x10_0000_0000_0000 {
        assert(qq == 0x20_0000_0000_0000);
        assert((4 * p - 1) * (4 * p - 1) < 4 * nn) by (nonlinear_arith)
            requires
                p == 0x10_0000_0000_0000,
                qq == 0x20_0000_0000_0000,
                qq * qq <= nn,
        ;
    }
    if qq * qq == nn {
        assert(qq % 2 == 0);
        assert(2 * p == qq);
        assert((2 * p - 1) * (2 * p - 1) < nn && nn < (2 * p + 1) * (2 * p + 1)) by (nonlinear_arith)
            requires
                2 * p == qq,
                qq * qq == nn,
                qq >= 1,
        ;
    } else {
        if qq % 2 == 0 {
            assert(2 * p == qq);
            assert((2 * p - 1) * (2 * p - 1) < nn && nn < (2 * p + 1) * (2 * p + 1))
                by (nonlinear_arith)
                requires
                    2 * p == qq,
                    qq * qq < nn,
                    nn < (qq + 1) * (qq + 1),
                    qq >= 1,
            ;
        } else {
            assert(2 * p == qq + 1);
            assert((2 * p - 1) * (2 * p - 1) < nn && nn < (2 * p + 1) * (2 * p + 1))
                by (nonlinear_arith)
                requires
                    2 * p == qq + 1,
                    qq * qq < nn,
                    nn < (qq + 1) * (qq + 1),
                    qq >= 1,
            ;
        }
    }
}

/// The square root of a double, on raw IEEE-754 bit patterns.
///
/// Special values resolve first: NaN and negative inputs (minus zero
/// excepted) give NaN, positive infinity and zeros of either sign pass
/// through unchanged. Every positive finite input yields the correctly
/// rounded root, as [`is_sqrt_of`] states.
pub fn sqrt_bits(x: u64) -> (r: u64)
    ensures
        is_nan_bits(x) ==> is_nan_bits(r),
        x == POS_INF_BITS ==> r == POS_INF_BITS,
        is_zero_bits(x) ==> r == x,
        sign_field(x) == 1 && !is_zero_bits(x) ==> is_nan_bits(r),
        sign_field(x) == 0 && exp_field(x) < 0x7ff && !is_zero_bits(x) ==> is_sqrt_of(
            val_mant(x),
            val_exp(x),
            r,
        ),
{
    let sign: u64 = x / 0x8000_0000_0000_0000;
    let exp: u64 = (x / 0x10_0000_0000_0000) % 0x800;
    let frac: u64 = x % 0x10_0000_0000_0000;
    if exp == 0x7ff {
        if frac != 0 {
            return NAN_BITS;  // NaN propagates
        }
        if sign == 0 {
            proof {
                lemma_parts_round_trip(x);
            }
            return x;  // +infinity
        }
        return NAN_BITS;  // -infinity
    }
    if exp == 0 && frac == 0 {
        return x;  // +-0 unchanged
    }
    if sign == 1 {
        return NAN_BITS;  // negative and finite
    }

    // Normalize to an integer significand m in [2^52, 2^53) with
    // x's magnitude equal to m * 2^(eu - 52).
    let ghost xm = val_mant(x);
    let ghost xe = val_exp(x);
    let mut m: u64;
    let mut eu: i64;
    let ghost mut k: nat = 0;
    if exp == 0 {
        m = frac;
        eu = -1022;
        proof {
            lemma2_to64();
        }
        while m < 0x10_0000_0000_0000
            invariant
                1 <= m < 0x20_0000_0000_0000,
                -1074 <= eu <= -1022,
                k == -1022 - eu,
                m as int == xm * pow2(k),
                m as int >= pow2(k),
                1 <= xm < 0x10_0000_0000_0000,
            decreases eu + 1074,
        {
            proof {
                lemma_pow2_ladder(k);
                assert(xm * pow2((k + 1) as nat) == 2 * (xm * pow2(k))) by (nonlinear_arith)
                    requires
                        pow2((k + 1) as nat) == 2 * pow2(k),
                ;
                assert(pow2(k) < 0x10_0000_0000_0000);
                if k >= 52 {
                    if k > 52 {
                        lemma_pow2_strictly_increases(52, k);
                    }
                    lemma2_to64_rest();
                    assert(false);
                }
                k = k + 1;
            }
            m = m * 2;
            eu = eu - 1;
        }
    } else {
        m = frac + 0x10_0000_0000_0000;
        eu = exp as i64 - 1023;
        proof {
            lemma2_to64();
        }
    }
    proof {
        assert(m as int == xm * pow2(k));
        assert(xe == eu - 52 + k);
    }

    // Split the exponent into an even part and a parity bit; on odd
    // exponents the significand is doubled so that halving the exponent
    // is exact.
    let eo: u64 = (eu + 1074) as u64;
    let par: u64 = eo % 2;
    let e_half: i64 = (eo / 2) as i64 - 537;
    proof {
        lemma_fundamental_div_mod(eo as int, 2);
    }
    let m2: u64 = if par == 1 {
        m * 2
    } else {
        m
    };
    let ghost g: nat = (k + par) as nat;
    proof {
        if par == 1 {
            lemma_pow2_ladder(k);
            assert(xm * pow2((k + 1) as nat) == 2 * (xm * pow2(k))) by (nonlinear_arith)
                requires
                    pow2((k + 1) as nat) == 2 * pow2(k),
            ;
        }
        assert(m2 as int == xm * pow2(g));
        assert(xe == 2 * e_half - 52 + g);
    }

    // Extract the 54-bit root (one guard bit included) of
    // nn = 2^54 * m2: one candidate bit per iteration, weights descending
    // from 2^53 to 1.
    let mut sig: u64 = m2 * 2;
    let ghost x0: int = sig as int;
    let ghost nn: int = 0x40_0000_0000_0000 * m2 as int;
    let mut r_bit: u64 = 0x20_0000_0000_0000;
    let mut s_acc: u64 = 0;
    let mut q: u64 = 0;
    let ghost mut j: nat = 0;
    let ghost mut qq: int = 0;
    proof {
        lemma2_to64();
        lemma2_to64_rest();
        assert(x0 == 2 * m2 as int);
        assert(nn == 0x20_0000_0000_0000 * x0);
    }
    while r_bit != 0
        invariant
            j <= 54,
            r_bit as int == if j < 54 {
                pow2((53 - j) as nat) as int
            } else {
                0
            },
            q as int == qq * pow2((54 - j) as nat),
            q < 0x40_0000_0000_0000,
            s_acc as int == 2 * q as int,
            0 <= qq < pow2(j),
            sig as int == pow2(j) * x0 - qq * qq * pow2((55 - j) as nat),
            (sig as int) < (2 * qq + 1) * pow2((55 - j) as nat),
            sig < 0x100_0000_0000_0000,
            r_bit <= 0x20_0000_0000_0000,
            0x20_0000_0000_0000 <= x0 < 0x80_0000_0000_0000,
            x0 == 2 * (m2 as int),
            nn == 0x20_0000_0000_0000 * x0,
            0x10_0000_0000_0000 <= m2 as int <= 0x3F_FFFF_FFFF_FFFE,
            m2 as int == xm * pow2(g),
            xe == 2 * (e_half as int) - 52 + g,
            -537 <= e_half <= 511,
        decreases 54 - j,
    {
        let ghost p53: int = pow2((53 - j) as nat) as int;
        proof {
            lemma_pow2_ladder(j);
            assert(q as int == qq * (2 * p53));
        }
        let t: u64 = s_acc + r_bit;
        proof {
            assert(t as int == (4 * qq + 1) * p53) by (nonlinear_arith)
                requires
                    t as int == 2 * (qq * (2 * p53)) + p53,
            ;
            if t as int <= sig as int {
                lemma_step_accept(x0, j, qq, sig as int, p53);
            } else {
                lemma_step_reject(x0, j, qq, sig as int, p53);
            }
        }
        if t <= sig {
            s_acc = t + r_bit;
            sig = sig - t;
            q = q + r_bit;
            proof {
                qq = 2 * qq + 1;
            }
        } else {
            proof {
                qq = 2 * qq;
            }
        }
        sig = sig * 2;
        r_bit = r_bit / 2;
        proof {
            if j == 53 {
                lemma2_to64();
            }
            j = j + 1;
        }
    }
    proof {
        if j < 54 {
            lemma_pow2_pos((53 - j) as nat);
        }
        lemma2_to64();
        lemma2_to64_rest();
        assert(j == 54);
        assert(pow2((54 - j) as nat) == 1);
        assert(pow2((55 - j) as nat) == 2);
        assert(qq * pow2((54 - j) as nat) == qq) by (nonlinear_arith)
            requires
                pow2((54 - j) as nat) == 1,
        ;
        assert(qq * qq * pow2((55 - j) as nat) == 2 * (qq * qq)) by (nonlinear_arith)
            requires
                pow2((55 - j) as nat) == 2,
        ;
        assert((2 * qq + 1) * pow2((55 - j) as nat) == (2 * qq + 1) * 2) by (nonlinear_arith)
            requires
                pow2((55 - j) as nat) == 2,
        ;
        assert(q as int == qq);
        assert(pow2(54) * x0 == 2 * nn) by (nonlinear_arith)
            requires
                pow2(54) == 0x40_0000_0000_0000,
                nn == 0x20_0000_0000_0000 * x0,
        ;
        assert(sig as int == 2 * nn - 2 * (qq * qq));
        assert(qq * qq <= nn);
        assert(nn < (qq + 1) * (qq + 1)) by (nonlinear_arith)
            requires
                2 * nn - 2 * (qq * qq) < (2 * qq + 1) * 2,
        ;
        lemma_root_interval(nn, qq, m2 as int);
    }

    // Rounding: a nonzero remainder means the root is inexact; adding the
    // low (guard) bit back in before halving rounds to nearest, ties being
    // impossible.
    let p: u64 = if sig != 0 {
        (q + (q % 2)) / 2
    } else {
        q / 2
    };
    proof {
        lemma_round_bits(nn, qq, p as int);
    }

    // Recompose: the root of a positive finite double is always a positive
    // normal double.
    let be: u64 = (e_half + 1023) as u64;
    let res: u64 = be * 0x10_0000_0000_0000 + (p - 0x10_0000_0000_0000);
    proof {
        lemma_compose_fields(res, 0, be as int, p as int - 0x10_0000_0000_0000);
        lemma_pow2_adds(54, g);
        lemma_pow2_adds(2, (54 + g) as nat);
        lemma2_to64();
        lemma2_to64_rest();
        assert(nn == xm * pow2((54 + g) as nat)) by (nonlinear_arith)
            requires
                nn == 0x40_0000_0000_0000 * (xm * pow2(g)),
                pow2((54 + g) as nat) == 0x40_0000_0000_0000 * pow2(g),
        ;
        assert(4 * nn == xm * pow2((56 + g) as nat)) by (nonlinear_arith)
            requires
                nn == xm * pow2((54 + g) as nat),
                pow2((56 + g) as nat) == 4 * pow2((54 + g) as nat),
        ;
        assert(xe - (2 * (be as int - 1075) - 2) == 54 + g);
        assert(xe - (2 * (be as int - 1075) - 4) == 56 + g);
    }
    res
}

/// Scaling both sides of a [`scaled_lt`] comparison down to a common base
/// exponent turns it into a plain integer comparison.
proof fn lemma_scaled_shift(a: int, ea: int, b: int, eb: int, base: int)
    requires
        scaled_lt(a, ea, b, eb),
        base <= ea,
        base <= eb,
    ensures
        a * pow2((ea - base) as nat) < b * pow2((eb - base) as nat),
{
    if ea >= eb {
        lemma_pow2_adds((ea - eb) as nat, (eb - base) as nat);
        lemma_pow2_pos((eb - base) as nat);
        vstd::arithmetic::mul::lemma_mul_strict_inequality(
            a * pow2((ea - eb) as nat) as int,
            b,
            pow2((eb - base) as nat) as int,
        );
        assert(pow2((eb - base) as nat) * (a * pow2((ea - eb) as nat)) == a * pow2(
            (ea - base) as nat,
        )) by (nonlinear_arith)
            requires
                pow2((ea - base) as nat) == pow2((ea - eb) as nat) * pow2((eb - base) as nat),
        ;
        assert(pow2((eb - base) as nat) * b == b * pow2((eb - base) as nat)) by (nonlinear_arith);
    } else {
        lemma_pow2_adds((eb - ea) as nat, (ea - base) as nat);
        lemma_pow2_pos((ea - base) as nat);
        vstd::arithmetic::mul::lemma_mul_strict_inequality(
            a,
            b * pow2((eb - ea) as nat) as int,
            pow2((ea - base) as nat) as int,
        );
        assert(pow2((ea - base) as nat) * (b * pow2((eb - ea) as nat)) == b * pow2(
            (eb - base) as nat,
        )) by (nonlinear_arith)
            requires
                pow2((eb - base) as nat) == pow2((eb - ea) as nat) * pow2((ea - base) as nat),
        ;
        assert(pow2((ea - base) as nat) * a == a * pow2((ea - base) as nat)) by (nonlinear_arith);
    }
}

/// [`scaled_lt`] comparisons chain through a shared middle value.
proof fn lemma_scaled_lt_chain(a: int, ea: int, m: int, em: int, b: int, eb: int)
    requires
        scaled_lt(a, ea, m, em),
        scaled_lt(m, em, b, eb),
    ensures
        scaled_lt(a, ea, b, eb),
{
    let base = if ea <= em && ea <= eb {
        ea
    } else if em <= eb {
        em
    } else {
        eb
    };
    lemma_scaled_shift(a, ea, m, em, base);
    lemma_scaled_shift(m, em, b, eb, base);
    if ea >= eb {
        lemma_pow2_adds((ea - eb) as nat, (eb - base) as nat);
        lemma_pow2_pos((eb - base) as nat);
        assert(a * pow2((ea - base) as nat) == (a * pow2((ea - eb) as nat)) * pow2(
            (eb - base) as nat,
        )) by (nonlinear_arith)
            requires
                pow2((ea - base) as nat) == pow2((ea - eb) as nat) * pow2((eb - base) as nat),
        ;
        vstd::arithmetic::mul::lemma_mul_strict_inequality_converse(
            a * pow2((ea - eb) as nat) as int,
            b,
            pow2((eb - base) as nat) as int,
        );
        assert(b * pow2((eb - base) as nat) == b * pow2((eb - base) as nat));
    } else {
        lemma_pow2_adds((eb - ea) as nat, (ea - base) as nat);
        lemma_pow2_pos((ea - base) as nat);
        assert(b * pow2((eb - base) as nat) == (b * pow2((eb - ea) as nat)) * pow2(
            (ea - base) as nat,
        )) by (nonlinear_arith)
            requires
                pow2((eb - base) as nat) == pow2((eb - ea) as nat) * pow2((ea - base) as nat),
        ;
        vstd::arithmetic::mul::lemma_mul_strict_inequality_converse(
            a,
            b * pow2((eb - ea) as nat) as int,
            pow2((ea - base) as nat) as int,
        );
    }
}

/// Two square-root windows for the same radicand cannot sit at different
/// exponents: the lower edge of a window at a larger exponent would lie at
/// or above the upper edge of the other one.
proof fn lemma_sqrt_exponent_le(xm: int, xe: int, rlow: u64, rhigh: u64)
    requires
        is_sqrt_of(xm, xe, rlow),
        is_sqrt_of(xm, xe, rhigh),
    ensures
        exp_field(rhigh) <= exp_field(rlow),
{
    if exp_field(rlow) < exp_field(rhigh) {
        let pl = frac_field(rlow) + 0x10_0000_0000_0000;
        let ph = frac_field(rhigh) + 0x10_0000_0000_0000;
        let rel = exp_field(rlow) - 1075;
        let reh = exp_field(rhigh) - 1075;
        let d = reh - rel;
        lemma2_to64();
        if frac_field(rhigh) == 0 {
            lemma_scaled_lt_chain(
                (4 * ph - 1) * (4 * ph - 1),
                2 * reh - 4,
                xm,
                xe,
                (2 * pl + 1) * (2 * pl + 1),
                2 * rel - 2,
            );
            lemma_pow2_pos((2 * d - 2) as nat);
            assert(((4 * ph - 1) * (4 * ph - 1)) * pow2((2 * d - 2) as nat) < (2 * pl + 1) * (2
                * pl + 1));
            assert((2 * pl + 1) * (2 * pl + 1) <= (4 * ph - 1) * (4 * ph - 1)) by (nonlinear_arith)
                requires
                    ph == 0x10_0000_0000_0000,
                    1 <= pl < 0x20_0000_0000_0000,
            ;
            assert(((4 * ph - 1) * (4 * ph - 1)) * pow2((2 * d - 2) as nat) >= (4 * ph - 1) * (4
                * ph - 1)) by (nonlinear_arith)
                requires
                    ph >= 1,
                    pow2((2 * d - 2) as nat) >= 1,
            ;
        } else {
            lemma_scaled_lt_chain(
                (2 * ph - 1) * (2 * ph - 1),
                2 * reh - 2,
                xm,
                xe,
                (2 * pl + 1) * (2 * pl + 1),
                2 * rel - 2,
            );
            assert(pow2((2 * d) as nat) >= 4) by {
                lemma_pow2_adds(2, (2 * d - 2) as nat);
                lemma_pow2_pos((2 * d - 2) as nat);
                assert(pow2((2 * d) as nat) == 4 * pow2((2 * d - 2) as nat)) by (nonlinear_arith)
                    requires
                        pow2((2 * d) as nat) == pow2(2) * pow2((2 * d - 2) as nat),
                        pow2(2) == 4,
                ;
            }
            assert(((2 * ph - 1) * (2 * ph - 1)) * pow2((2 * d) as nat) < (2 * pl + 1) * (2 * pl
                + 1));
            assert((2 * pl + 1) * (2 * pl + 1) < ((2 * ph - 1) * 2) * ((2 * ph - 1) * 2))
                by (nonlinear_arith)
                requires
                    ph > 0x10_0000_0000_0000,
                    1 <= pl < 0x20_0000_0000_0000,
            ;
            assert(((2 * ph - 1) * (2 * ph - 1)) * pow2((2 * d) as nat) >= ((2 * ph - 1) * 2) * ((2
                * ph - 1) * 2)) by (nonlinear_arith)
                requires
                    ph >= 1,
                    pow2((2 * d) as nat) >= 4,
            ;
        }
    }
}

/// At a shared exponent, the window of the larger significand lies wholly
/// above the window of the smaller one, so the significands agree.
proof fn lemma_sqrt_same_exp_le(xm: int, xe: int, r1: u64, r2: u64)
    requires
        is_sqrt_of(xm, xe, r1),
        is_sqrt_of(xm, xe, r2),
        exp_field(r1) == exp_field(r2),
    ensures
        frac_field(r2) <= frac_field(r1),
{
    let p1 = frac_field(r1) + 0x10_0000_0000_0000;
    let p2 = frac_field(r2) + 0x10_0000_0000_0000;
    let re = exp_field(r1) - 1075;
    lemma2_to64();
    if frac_field(r2) == 0 {
    } else {
        lemma_scaled_lt_chain(
            (2 * p2 - 1) * (2 * p2 - 1),
            2 * re - 2,
            xm,
            xe,
            (2 * p1 + 1) * (2 * p1 + 1),
            2 * re - 2,
        );
        assert(((2 * p2 - 1) * (2 * p2 - 1)) * pow2(0) < (2 * p1 + 1) * (2 * p1 + 1));
        assert(p2 <= p1) by (nonlinear_arith)
            requires
                p1 >= 1,
                p2 >= 1,
                pow2(0) == 1,
                ((2 * p2 - 1) * (2 * p2 - 1)) * pow2(0) < (2 * p1 + 1) * (2 * p1 + 1),
        ;
    }
}

/// The square-root window condition determines the result bit pattern: no
/// two patterns satisfy [`is_sqrt_of`] for the same radicand.
///
/// Together with the contract of [`sqrt_bits`] this says that any routine
/// producing the correctly rounded root of a positive finite double must
/// agree with [`sqrt_bits`] bit for bit.
pub proof fn lemma_sqrt_of_unique(xm: int, xe: int, r1: u64, r2: u64)
    requires
        is_sqrt_of(xm, xe, r1),
        is_sqrt_of(xm, xe, r2),
    ensures
        r1 == r2,
{
    lemma_sqrt_exponent_le(xm, xe, r1, r2);
    lemma_sqrt_exponent_le(xm, xe, r2, r1);
    lemma_sqrt_same_exp_le(xm, xe, r1, r2);
    lemma_sqrt_same_exp_le(xm, xe, r2, r1);
    lemma_parts_round_trip(r1);
    lemma_parts_round_trip(r2);
}

} // verus!
