//! The generator has full period: with an odd increment and a multiplier
//! congruent to 1 modulo 4, the 48-bit linear-congruential step visits every
//! state exactly once before repeating. The classical argument runs through
//! the closed form of the iterated step, the factorization
//! `a^t - 1 = (a - 1) * (1 + a + ... + a^(t-1))`, and the two-adic valuation
//! of the geometric sum. The payoff for the library is a hard bound: the
//! bounded sampler's rejection loop accepts a draw within one full period.

use vstd::prelude::*;

verus! {

use vstd::arithmetic::power2::pow2;
use vstd::arithmetic::power2::lemma2_to64;
use vstd::arithmetic::power2::lemma2_to64_rest;
use vstd::arithmetic::power2::lemma_pow2_pos;
use vstd::arithmetic::power2::lemma_pow2_strictly_increases;
use vstd::arithmetic::div_mod::lemma_small_mod;
use vstd::arithmetic::div_mod::lemma_fundamental_div_mod;
use vstd::arithmetic::div_mod::lemma_fundamental_div_mod_converse;
use vstd::arithmetic::div_mod::lemma_mod_equivalence;
use vstd::arithmetic::div_mod::lemma_add_mod_noop;
use vstd::arithmetic::div_mod::lemma_mul_mod_noop_right;
use vstd::arithmetic::div_mod::lemma_mod_multiples_basic;
use vstd::arithmetic::div_mod::lemma_mod_bound;
use vstd::set_lib::set_int_range;
use vstd::set_lib::lemma_int_range;
use vstd::set_lib::lemma_len_subset;
use crate::rng::top_bits;
use crate::rng::draw31;
use crate::rng::rejects;
use crate::rng::iter_state;
use crate::rng::next_state;
use crate::rng::lemma_iter_state_unfold;

/// The multiplier raised to the `t`-th power, as a mathematical integer.
spec fn pow_mult(t: nat) -> int
    decreases t,
{
    if t == 0 {
        1
    } else {
        0x5_DEEC_E66D * pow_mult((t - 1) as nat)
    }
}

/// The geometric sum `1 + a + a^2 + ... + a^(t-1)` of multiplier powers.
spec fn geo_sum(t: nat) -> int
    decreases t,
{
    if t == 0 {
        0
    } else {
        1 + 0x5_DEEC_E66D * geo_sum((t - 1) as nat)
    }
}

/// The two-adic valuation of `t`: how many times two divides it.
spec fn two_val(t: nat) -> nat
    decreases t,
{
    if t == 0 || t % 2 == 1 {
        0
    } else {
        1 + two_val(t / 2)
    }
}

/// The multiplier's powers are congruent to one modulo four (and hence odd),
/// and positive.
proof fn lemma_pow_mult_mod4(t: nat)
    ensures
        pow_mult(t) % 4 == 1,
        pow_mult(t) >= 1,
    decreases t,
{
    if t > 0 {
        lemma_pow_mult_mod4((t - 1) as nat);
        let p = pow_mult((t - 1) as nat);
        lemma_mul_mod_noop_right(0x5_DEEC_E66D, p, 4);
        assert((0x5_DEEC_E66D * (p % 4)) % 4 == 1) by (nonlinear_arith)
            requires
                p % 4 == 1,
        ;
        assert(0x5_DEEC_E66D * p >= 1) by (nonlinear_arith)
            requires
                p >= 1,
        ;
    }
}

/// `a^t - 1` factors as `(a - 1)` times the geometric sum.
proof fn lemma_geo_factor(t: nat)
    ensures
        pow_mult(t) - 1 == 0x5_DEEC_E66C * geo_sum(t),
    decreases t,
{
    if t > 0 {
        lemma_geo_factor((t - 1) as nat);
        assert(0x5_DEEC_E66D * pow_mult((t - 1) as nat) - 1 == 0x5_DEEC_E66C * (1 + 0x5_DEEC_E66D
            * geo_sum((t - 1) as nat))) by (nonlinear_arith)
            requires
                pow_mult((t - 1) as nat) - 1 == 0x5_DEEC_E66C * geo_sum((t - 1) as nat),
        ;
    }
}

/// The geometric sum splits across a sum of exponents.
proof fn lemma_geo_sum_add(t: nat, u: nat)
    ensures
        geo_sum(t + u) == geo_sum(t) + pow_mult(t) * geo_sum(u),
    decreases t,
{
    if t == 0 {
        assert(1 * geo_sum(u) == geo_sum(u)) by (nonlinear_arith);
    } else {
        lemma_geo_sum_add((t - 1) as nat, u);
        assert((t + u - 1) as nat == (t - 1) as nat + u);
        assert(1 + 0x5_DEEC_E66D * (geo_sum((t - 1) as nat) + pow_mult((t - 1) as nat) * geo_sum(u))
            == (1 + 0x5_DEEC_E66D * geo_sum((t - 1) as nat)) + (0x5_DEEC_E66D * pow_mult(
            (t - 1) as nat,
        )) * geo_sum(u)) by (nonlinear_arith);
    }
}

/// The geometric sum has the parity of its length.
proof fn lemma_geo_sum_parity(t: nat)
    ensures
        geo_sum(t) % 2 == t % 2,
    decreases t,
{
    if t > 0 {
        lemma_geo_sum_parity((t - 1) as nat);
        let g = geo_sum((t - 1) as nat);
        let q = g / 2;
        let r = g % 2;
        lemma_fundamental_div_mod(g, 2);
        assert(1 + 0x5_DEEC_E66D * g == 2 * (0x5_DEEC_E66D * q) + (1 + 0x5_DEEC_E66D * r))
            by (nonlinear_arith)
            requires
                g == 2 * q + r,
        ;
        if r == 0 {
            lemma_fundamental_div_mod_converse(geo_sum(t), 2, 0x5_DEEC_E66D * q, 1);
        } else {
            lemma_fundamental_div_mod_converse(geo_sum(t), 2, 0x5_DEEC_E66D * q + 0x2_EF76_7337, 0);
        }
        lemma_fundamental_div_mod(t as int, 2);
        lemma_fundamental_div_mod(t - 1, 2);
        lemma_fundamental_div_mod_converse(t as int, 2, (t - 1) / 2 + if (t - 1) % 2 == 1 {
            1int
        } else {
            0int
        }, 1 - (t - 1) % 2);
    }
}

/// The iterated step in closed form: `t` steps from `s` land on
/// `(a^t * s + c * geo_sum(t)) mod 2^48`.
proof fn lemma_iter_closed_form(s: int, t: nat)
    requires
        0 <= s < 0x1_0000_0000_0000,
        t >= 1,
    ensures
        iter_state(s, t) == (pow_mult(t) * s + 0xB * geo_sum(t)) % 0x1_0000_0000_0000,
    decreases t,
{
    let m = 0x1_0000_0000_0000;
    if t == 1 {
        lemma_iter_state_unfold(s, 1);
        assert(pow_mult(0) == 1 && geo_sum(0) == 0);
        assert(pow_mult(1) == 0x5_DEEC_E66D && geo_sum(1) == 1);
        assert(pow_mult(1) * s + 0xB * geo_sum(1) == s * 0x5_DEEC_E66D + 0xB);
    } else {
        lemma_iter_closed_form(s, (t - 1) as nat);
        lemma_iter_state_unfold(s, t);
        let prev = pow_mult((t - 1) as nat) * s + 0xB * geo_sum((t - 1) as nat);
        // next_state(prev % m) == (a * prev + c) % m
        lemma_mul_mod_noop_right(0x5_DEEC_E66D, prev, m);
        lemma_add_mod_noop(0x5_DEEC_E66D * (prev % m), 0xB, m);
        lemma_add_mod_noop(0x5_DEEC_E66D * prev, 0xB, m);
        lemma_small_mod(0xB, m as nat);
        assert(((prev % m) * 0x5_DEEC_E66D + 0xB) % m == (0x5_DEEC_E66D * (prev % m) + 0xB)
            % m) by (nonlinear_arith);
        assert(0x5_DEEC_E66D * prev + 0xB == pow_mult(t) * s + 0xB * geo_sum(t)) by (nonlinear_arith)
            requires
                prev == pow_mult((t - 1) as nat) * s + 0xB * geo_sum((t - 1) as nat),
                pow_mult(t) == 0x5_DEEC_E66D * pow_mult((t - 1) as nat),
                geo_sum(t) == 1 + 0x5_DEEC_E66D * geo_sum((t - 1) as nat),
        ;
    }
}

/// An odd factor can be cancelled from a product divisible by a power of
/// two.
proof fn lemma_odd_cancel(z: int, w: int, k: nat)
    requires
        w % 2 == 1,
        (z * w) % pow2(k) as int == 0,
    ensures
        z % pow2(k) as int == 0,
    decreases k,
{
    lemma_pow2_pos(k);
    if k == 0 {
        lemma2_to64();
        lemma_fundamental_div_mod(z, 1);
    } else {
        vstd::arithmetic::power2::lemma_pow2_unfold(k);
        let q = (z * w) / pow2(k) as int;
        lemma_fundamental_div_mod(z * w, pow2(k) as int);
        let zq = z / 2;
        let zr = z % 2;
        lemma_fundamental_div_mod(z, 2);
        if zr == 1 {
            let wq = w / 2;
            lemma_fundamental_div_mod(w, 2);
            assert(z * w == 2 * (2 * zq * wq + zq + wq) + 1) by (nonlinear_arith)
                requires
                    z == 2 * zq + 1,
                    w == 2 * wq + 1,
            ;
            lemma_fundamental_div_mod_converse(z * w, 2, 2 * zq * wq + zq + wq, 1);
            assert(z * w == 2 * (q * pow2((k - 1) as nat) as int)) by (nonlinear_arith)
                requires
                    z * w == pow2(k) as int * q,
                    pow2(k) == 2 * pow2((k - 1) as nat),
            ;
            lemma_fundamental_div_mod_converse(z * w, 2, q * pow2((k - 1) as nat) as int, 0);
            assert(false);
        }
        assert(2 * (zq * w) == 2 * (q * pow2((k - 1) as nat) as int)) by (nonlinear_arith)
            requires
                z == 2 * zq,
                z * w == pow2(k) as int * q,
                pow2(k) == 2 * pow2((k - 1) as nat),
        ;
        lemma_pow2_pos((k - 1) as nat);
        lemma_mod_multiples_basic(q, pow2((k - 1) as nat) as int);
        lemma_odd_cancel(zq, w, (k - 1) as nat);
        let d = zq / pow2((k - 1) as nat) as int;
        lemma_fundamental_div_mod(zq, pow2((k - 1) as nat) as int);
        assert(z == d * pow2(k) as int) by (nonlinear_arith)
            requires
                z == 2 * zq,
                zq == pow2((k - 1) as nat) as int * d,
                pow2(k) == 2 * pow2((k - 1) as nat),
        ;
        lemma_mod_multiples_basic(d, pow2(k) as int);
    }
}

/// The geometric sum is exactly as even as its length: it is an odd multiple
/// of two to the two-adic valuation of `t`.
proof fn lemma_geo_two_val(t: nat) -> (u: int)
    requires
        t >= 1,
    ensures
        geo_sum(t) == pow2(two_val(t)) as int * u,
        u % 2 == 1,
    decreases t,
{
    if t % 2 == 1 {
        lemma_geo_sum_parity(t);
        lemma2_to64();
        let u = geo_sum(t);
        assert(geo_sum(t) == pow2(0) as int * u) by (nonlinear_arith)
            requires
                pow2(0) == 1,
                u == geo_sum(t),
        ;
        u
    } else {
        let m_h = t / 2;
        lemma_fundamental_div_mod(t as int, 2);
        assert(t == m_h + m_h);
        lemma_geo_sum_add(m_h, m_h);
        let u_m = lemma_geo_two_val(m_h);
        lemma_pow_mult_mod4(m_h);
        let e = pow_mult(m_h) / 4;
        lemma_fundamental_div_mod(pow_mult(m_h), 4);
        let u = u_m * (2 * e + 1);
        vstd::arithmetic::power2::lemma_pow2_unfold((two_val(m_h) + 1) as nat);
        assert(geo_sum(t) == pow2((two_val(m_h) + 1) as nat) as int * u) by (nonlinear_arith)
            requires
                geo_sum(t) == geo_sum(m_h) + pow_mult(m_h) * geo_sum(m_h),
                geo_sum(m_h) == pow2(two_val(m_h)) as int * u_m,
                pow_mult(m_h) == 4 * e + 1,
                u == u_m * (2 * e + 1),
                pow2((two_val(m_h) + 1) as nat) == 2 * pow2(two_val(m_h)),
        ;
        let uq = u_m / 2;
        lemma_fundamental_div_mod(u_m, 2);
        assert(u == 2 * (2 * uq * e + uq + e) + 1) by (nonlinear_arith)
            requires
                u_m == 2 * uq + 1,
                u == u_m * (2 * e + 1),
        ;
        lemma_fundamental_div_mod_converse(u, 2, 2 * uq * e + uq + e, 1);
        u
    }
}

/// A positive number is at least two to its two-adic valuation.
proof fn lemma_two_val_le(t: nat)
    requires
        t >= 1,
    ensures
        t >= pow2(two_val(t)),
    decreases t,
{
    if t % 2 == 1 {
        lemma2_to64();
    } else {
        lemma_two_val_le(t / 2);
        lemma_fundamental_div_mod(t as int, 2);
        vstd::arithmetic::power2::lemma_pow2_unfold((two_val(t / 2) + 1) as nat);
    }
}

/// A state that recurs has run for at least a full period: the recurrence
/// forces the geometric sum to vanish modulo 2^48, which the valuation
/// analysis allows only for multiples of 2^48.
proof fn lemma_return_time(s: int, t: nat)
    requires
        0 <= s < 0x1_0000_0000_0000,
        1 <= t,
        iter_state(s, t) == s,
    ensures
        t >= 0x1_0000_0000_0000,
{
    let m = 0x1_0000_0000_0000int;
    lemma_iter_closed_form(s, t);
    lemma_small_mod(s as nat, m as nat);
    lemma_mod_equivalence(pow_mult(t) * s + 0xB * geo_sum(t), s, m);
    lemma_geo_factor(t);
    let w = 0x5_DEEC_E66C * s + 0xB;
    assert(pow_mult(t) * s + 0xB * geo_sum(t) - s == geo_sum(t) * w) by (nonlinear_arith)
        requires
            pow_mult(t) - 1 == 0x5_DEEC_E66C * geo_sum(t),
            w == 0x5_DEEC_E66C * s + 0xB,
    ;
    lemma_fundamental_div_mod_converse(w, 2, 0x2_EF76_7336 * s + 5, 1);
    lemma2_to64_rest();
    lemma_odd_cancel(geo_sum(t), w, 48);
    let u = lemma_geo_two_val(t);
    assert(geo_sum(t) % pow2(48) as int == 0);
    assert((pow2(two_val(t)) as int * u) % pow2(48) as int == 0);
    lemma_odd_cancel(pow2(two_val(t)) as int, u, 48);
    if two_val(t) < 48 {
        lemma_pow2_strictly_increases(two_val(t), 48);
        lemma_pow2_pos(two_val(t));
        lemma_small_mod(pow2(two_val(t)), pow2(48));
        assert(false);
    }
    lemma_two_val_le(t);
    if two_val(t) > 48 {
        lemma_pow2_strictly_increases(48, two_val(t));
    }
}

/// One linear-congruential step is injective on 48-bit states: the
/// multiplier is odd, hence invertible modulo 2^48.
proof fn lemma_step_injective(x: int, y: int)
    requires
        0 <= x < 0x1_0000_0000_0000,
        0 <= y < 0x1_0000_0000_0000,
        next_state(x) == next_state(y),
    ensures
        x == y,
{
    let m = 0x1_0000_0000_0000int;
    lemma_mod_equivalence(x * 0x5_DEEC_E66D + 0xB, y * 0x5_DEEC_E66D + 0xB, m);
    assert((x * 0x5_DEEC_E66D + 0xB) - (y * 0x5_DEEC_E66D + 0xB) == (x - y) * 0x5_DEEC_E66D);
    lemma2_to64_rest();
    lemma_odd_cancel(x - y, 0x5_DEEC_E66D, 48);
    if x < y {
        lemma_fundamental_div_mod_converse(x - y, m, -1, x - y + m);
    }
    if x > y {
        lemma_small_mod((x - y) as nat, m as nat);
    }
}

/// Iteration composes: `i + u` steps are `u` steps from the `i`-th state.
proof fn lemma_iter_compose(s: int, i: nat, u: nat)
    ensures
        iter_state(s, i + u) == iter_state(iter_state(s, i), u),
    decreases u,
{
    if u > 0 {
        lemma_iter_compose(s, i, (u - 1) as nat);
        lemma_iter_state_unfold(s, i + u);
        lemma_iter_state_unfold(iter_state(s, i), u);
    }
}

/// Every iterate of a 48-bit state is a 48-bit state.
proof fn lemma_iter_in_range(s: int, k: nat)
    requires
        0 <= s < 0x1_0000_0000_0000,
    ensures
        0 <= iter_state(s, k) < 0x1_0000_0000_0000,
    decreases k,
{
    if k > 0 {
        lemma_iter_in_range(s, (k - 1) as nat);
        lemma_mod_bound(
            iter_state(s, (k - 1) as nat) * 0x5_DEEC_E66D + 0xB,
            0x1_0000_0000_0000,
        );
    }
}

/// Two equal iterates peel down to a recurrence of the state itself.
proof fn lemma_iter_peel(s: int, i: nat, j: nat)
    requires
        0 <= s < 0x1_0000_0000_0000,
        i <= j,
        iter_state(s, i) == iter_state(s, j),
    ensures
        iter_state(s, (j - i) as nat) == s,
    decreases i,
{
    if i == 0 {
    } else {
        lemma_iter_in_range(s, (i - 1) as nat);
        lemma_iter_in_range(s, (j - 1) as nat);
        lemma_iter_state_unfold(s, i);
        lemma_iter_state_unfold(s, j);
        lemma_step_injective(iter_state(s, (i - 1) as nat), iter_state(s, (j - 1) as nat));
        lemma_iter_peel(s, (i - 1) as nat, (j - 1) as nat);
    }
}

/// Within one period, all iterates of a state are pairwise distinct.
proof fn lemma_iter_distinct(s: int, i: nat, j: nat)
    requires
        0 <= s < 0x1_0000_0000_0000,
        i < j,
        j - i < 0x1_0000_0000_0000,
    ensures
        iter_state(s, i) != iter_state(s, j),
{
    if iter_state(s, i) == iter_state(s, j) {
        lemma_iter_peel(s, i, j);
        lemma_return_time(s, (j - i) as nat);
    }
}

/// The set of the first `n` iterates of `s`.
spec fn orbit_upto(s: int, n: nat) -> Set<int> {
    Set::new(|y: int| exists|k: nat| k < n && iter_state(s, k) == y)
}

/// Within one period the orbit has as many elements as steps taken: the
/// iterates are distinct.
proof fn lemma_orbit_card(s: int, n: nat)
    requires
        0 <= s < 0x1_0000_0000_0000,
        n <= 0x1_0000_0000_0000,
    ensures
        orbit_upto(s, n).finite(),
        orbit_upto(s, n).len() == n,
    decreases n,
{
    broadcast use vstd::set::group_set_axioms;

    if n == 0 {
        assert(orbit_upto(s, 0) =~= Set::empty());
    } else {
        lemma_orbit_card(s, (n - 1) as nat);
        let last = iter_state(s, (n - 1) as nat);
        assert(!orbit_upto(s, (n - 1) as nat).contains(last)) by {
            if orbit_upto(s, (n - 1) as nat).contains(last) {
                let k = choose|k: nat| k < n - 1 && iter_state(s, k) == last;
                lemma_iter_distinct(s, k, (n - 1) as nat);
            }
        }
        assert(orbit_upto(s, n) =~= orbit_upto(s, (n - 1) as nat).insert(last)) by {
            assert forall|y: int| orbit_upto(s, n).contains(y) implies orbit_upto(
                s,
                (n - 1) as nat,
            ).insert(last).contains(y) by {
                let k = choose|k: nat| k < n && iter_state(s, k) == y;
                if k < n - 1 {
                    assert(orbit_upto(s, (n - 1) as nat).contains(y));
                }
            }
        }
    }
}

/// The rejection sampler accepts within one full period: some state among
/// the first 2^48 draws hands out 31 bits that pass the bias test.
///
/// If every draw of a period were rejected, all 2^48 iterates past the
/// starting state would be distinct values at or above 2^17 (a draw of value
/// zero is always accepted), but only 2^48 - 2^17 such states exist.
pub proof fn lemma_sampler_accepts(s0: int, bound: int)
    requires
        0 <= s0 < 0x1_0000_0000_0000,
        1 <= bound < 0x8000_0000,
    ensures
        exists|k: nat|
            k < 0x1_0000_0000_0000 && !rejects(draw31(#[trigger] iter_state(s0, k)), bound),
{
    let nn: nat = 0x1_0000_0000_0000;
    if !(exists|k: nat| k < nn && !rejects(draw31(#[trigger] iter_state(s0, k)), bound)) {
        let s1 = iter_state(s0, 1);
        lemma_iter_in_range(s0, 1);
        lemma_orbit_card(s1, nn);
        lemma_int_range(0x2_0000, 0x1_0000_0000_0000);
        assert forall|y: int| orbit_upto(s1, nn).contains(y) implies set_int_range(
            0x2_0000,
            0x1_0000_0000_0000,
        ).contains(y) by {
            let k = choose|k: nat| k < nn && iter_state(s1, k) == y;
            lemma_iter_compose(s0, 1, k);
            lemma_iter_in_range(s0, 1 + k);
            assert(iter_state(s0, (1 + k) as nat) == y);
            if y < 0x2_0000 {
                // A draw whose 31 bits are zero is never rejected.
                lemma_iter_state_unfold(s0, 1 + k);
                lemma2_to64();
                vstd::arithmetic::div_mod::lemma_basic_div(y, 0x2_0000);
                assert(top_bits(iter_state(s0, (1 + k) as nat), 31) == 0);
                assert(draw31(iter_state(s0, k)) == 0);
                assert(0int % bound == 0) by (nonlinear_arith)
                    requires
                        bound >= 1,
                ;
                assert(!rejects(0, bound));
                assert(k < nn && !rejects(draw31(iter_state(s0, k)), bound));
                assert(false);
            }
        }
        lemma_len_subset(orbit_upto(s1, nn), set_int_range(0x2_0000, 0x1_0000_0000_0000));
        assert(false);
    }
}

} // verus!
