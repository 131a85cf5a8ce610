//! The 48-bit linear-congruential state engine and its derived distributions.
//!
//! The generator state is a 48-bit value; every draw advances it by
//! `state' = (state * 0x5DEECE66D + 0xB) mod 2^48` and hands out the top bits
//! of the new state, sign-extended into a signed 32-bit value.

use vstd::prelude::*;

verus! {

use vstd::arithmetic::power2::pow2;
use vstd::arithmetic::power2::lemma2_to64;
use vstd::arithmetic::power2::lemma2_to64_rest;

/// The fixed multiplier of the linear-congruential step.
pub const MULTIPLIER: u64 = 0x5_DEEC_E66D;

/// The fixed increment of the linear-congruential step.
pub const INCREMENT: u64 = 0xB;

/// The generator state modulus: 2^48.
pub const STATE_MODULUS: u64 = 0x1_0000_0000_0000;

/// Mask keeping the low 48 bits of a state update.
pub const STATE_MASK: u64 = 0xFFFF_FFFF_FFFF;

/// Initial value of the process-wide uniquifier that seeds default-constructed
/// generators.
pub const SEED_UNIQUIFIER_INIT: i64 = 8_682_522_807_148_012;

/// Multiplier applied to the uniquifier on every default construction.
pub const SEED_UNIQUIFIER_MULTIPLIER: i64 = 1_181_783_497_276_652_981;

/// The state derived from a seed: the seed xor-ed with the multiplier,
/// truncated to 48 bits.
pub open spec fn init_state(seed: i64) -> u64 {
    ((seed as u64) ^ MULTIPLIER) & STATE_MASK
}

/// One linear-congruential step on a 48-bit state.
pub open spec fn next_state(s: int) -> int {
    (s * MULTIPLIER + INCREMENT) % (STATE_MODULUS as int)
}

/// The state after `n` linear-congruential steps from `s`.
pub open spec fn iter_state(s: int, n: nat) -> int
    decreases n,
{
    if n == 0 {
        s
    } else {
        next_state(iter_state(s, (n - 1) as nat))
    }
}

/// Unfolds one step of [`iter_state`].
pub proof fn lemma_iter_state_unfold(s: int, n: nat)
    requires
        n >= 1,
    ensures
        iter_state(s, n) == next_state(iter_state(s, (n - 1) as nat)),
        iter_state(s, 0) == s,
{
}

/// The signed value handed out for a draw of `bits` bits when the freshly
/// advanced state is `s`: the top `bits` bits of the 48-bit state, read as a
/// two's-complement 32-bit integer (so only a full 32-bit draw can be
/// negative).
pub open spec fn top_bits(s: int, bits: int) -> int {
    let t = s / pow2((48 - bits) as nat) as int;
    if t >= 0x8000_0000 {
        t - 0x1_0000_0000
    } else {
        t
    }
}

/// The value of a 31-bit draw made from state `s` (the draw first advances
/// the state, then reads the top 31 bits; it is never negative).
pub open spec fn draw31(s: int) -> int {
    top_bits(next_state(s), 31)
}

/// A 31-bit draw of value `b` is rejected by the bounded sampler exactly when
/// the acceptance expression `b - b % bound + (bound - 1)` overflows a signed
/// 32-bit integer.
pub open spec fn rejects(b: int, bound: int) -> bool {
    b - b % bound + (bound - 1) >= 0x8000_0000
}

/// `b` is a positive power of two representable in an `i32`.
pub open spec fn bound_is_pow2(b: int) -> bool {
    exists|j: nat| j <= 30 && b == pow2(j)
}

/// Reduction of a mathematical integer into the two's-complement range of an
/// `i64`.
pub open spec fn wrap_i64(x: int) -> int {
    let m = x % 0x1_0000_0000_0000_0000;
    if m >= 0x8000_0000_0000_0000 {
        m - 0x1_0000_0000_0000_0000
    } else {
        m
    }
}

/// A pseudorandom number generator: the 48-bit linear-congruential state
/// engine.
pub struct Random {
    state: u64,
}

impl Random {
    /// The current 48-bit state, as a mathematical integer.
    pub closed spec fn state_int(self) -> int {
        self.state as int
    }

    /// The state fits in 48 bits; established by the constructor and
    /// preserved by every operation.
    pub open spec fn wf(self) -> bool {
        0 <= self.state_int() < STATE_MODULUS
    }

    /// Creates a new generator from a 64-bit seed.
    pub fn new(seed: i64) -> (r: Random)
        ensures
            r.wf(),
            r.state_int() == init_state(seed) as int,
    {
        let s = ((seed as u64) ^ MULTIPLIER) & STATE_MASK;
        proof {
            assert(((seed as u64) ^ 0x5_DEEC_E66Du64) & 0xFFFF_FFFF_FFFFu64
                < 0x1_0000_0000_0000u64) by (bit_vector);
        }
        Random { state: s }
    }

    /// Advances the state by one linear-congruential step and returns the new
    /// 48-bit state.
    fn step(&mut self) -> (r: u64)
        requires
            old(self).wf(),
        ensures
            final(self).wf(),
            final(self).state_int() == next_state(old(self).state_int()),
            r as int == final(self).state_int(),
    {
        let wide: u128 = (self.state as u128) * (MULTIPLIER as u128) + (INCREMENT as u128);
        let ns: u64 = (wide % (STATE_MODULUS as u128)) as u64;
        self.state = ns;
        ns
    }

    /// Advances the generator by one step and returns the top `bits` bits of
    /// the new state, sign-extended into a signed 32-bit value.
    pub fn next(&mut self, bits: u8) -> (r: i32)
        requires
            old(self).wf(),
            1 <= bits <= 32,
        ensures
            final(self).wf(),
            final(self).state_int() == next_state(old(self).state_int()),
            r as int == top_bits(final(self).state_int(), bits as int),
            bits <= 31 ==> 0 <= r < pow2(bits as nat),
    {
        let s = self.step();
        let shift: u8 = 48 - bits;
        proof {
            vstd::bits::lemma_u64_pow2_no_overflow(shift as nat);
        }
        let divisor: u64 = 1u64 << (shift as u64);
        proof {
            vstd::bits::lemma_u64_shl_is_mul(1u64, shift as u64);
            lemma2_to64();
            assert(divisor >= 0x10000) by {
                if shift > 16 {
                    vstd::arithmetic::power2::lemma_pow2_strictly_increases(16, shift as nat);
                }
            }
        }
        let t: u64 = s / divisor;
        proof {
            vstd::arithmetic::div_mod::lemma_div_is_ordered_by_denominator(
                s as int,
                0x10000,
                divisor as int,
            );
            vstd::arithmetic::div_mod::lemma_multiply_divide_lt(s as int, 0x10000, 0x1_0000_0000);
            if bits <= 31 {
                lemma2_to64_rest();
                vstd::arithmetic::power2::lemma_pow2_adds(shift as nat, bits as nat);
                vstd::arithmetic::power2::lemma_pow2_pos(bits as nat);
                assert(s < divisor * pow2(bits as nat)) by {
                    vstd::arithmetic::mul::lemma_mul_is_commutative(
                        divisor as int,
                        pow2(bits as nat) as int,
                    );
                }
                vstd::arithmetic::div_mod::lemma_multiply_divide_lt(
                    s as int,
                    divisor as int,
                    pow2(bits as nat) as int,
                );
                if bits < 31 {
                    vstd::arithmetic::power2::lemma_pow2_strictly_increases(bits as nat, 31);
                }
            }
        }
        if t >= 0x8000_0000 {
            (t as i64 - 0x1_0000_0000) as i32
        } else {
            t as i32
        }
    }

    /// Returns the next pseudorandom, uniformly distributed 32-bit integer:
    /// one full 32-bit draw.
    pub fn next_i32(&mut self) -> (r: i32)
        requires
            old(self).wf(),
        ensures
            final(self).wf(),
            final(self).state_int() == next_state(old(self).state_int()),
            r as int == top_bits(final(self).state_int(), 32),
    {
        self.next(32)
    }

    /// Returns the next pseudorandom boolean: a one-bit draw, true exactly
    /// when the drawn bit is set.
    pub fn next_bool(&mut self) -> (r: bool)
        requires
            old(self).wf(),
        ensures
            final(self).wf(),
            final(self).state_int() == next_state(old(self).state_int()),
            r == (top_bits(final(self).state_int(), 1) != 0),
    {
        self.next(1) != 0
    }

    /// Returns the next pseudorandom, uniformly distributed 64-bit integer:
    /// a first 32-bit draw shifted into the high half, plus a second
    /// (sign-extended) 32-bit draw, with 64-bit wraparound.
    pub fn next_i64(&mut self) -> (r: i64)
        requires
            old(self).wf(),
        ensures
            final(self).wf(),
            final(self).state_int() == iter_state(old(self).state_int(), 2),
            r as int == wrap_i64(
                top_bits(iter_state(old(self).state_int(), 1), 32) * 0x1_0000_0000 + top_bits(
                    iter_state(old(self).state_int(), 2),
                    32,
                ),
            ),
    {
        proof {
            lemma_iter_state_unfold(old(self).state_int(), 1);
            lemma_iter_state_unfold(old(self).state_int(), 2);
        }
        let hi = self.next(32);
        let lo = self.next(32);
        let shifted: i64 = (hi as i64).wrapping_mul(0x1_0000_0000);
        proof {
            lemma_signed_crop_is_wrap(hi as int * 0x1_0000_0000);
            lemma_wrap_i64_in_range(hi as int * 0x1_0000_0000);
        }
        let r = shifted.wrapping_add(lo as i64);
        proof {
            if shifted + lo < i64::MIN {
                lemma_wrap_i64_low(shifted as int + lo as int);
            } else {
                lemma_wrap_i64_in_range(shifted as int + lo as int);
            }
        }
        r
    }

    /// Returns the numerator of the next pseudorandom double in `[0, 1)`:
    /// a 26-bit draw shifted left by 27 bits, plus a 27-bit draw. The double
    /// itself is this value divided by 2^53, which is exact in
    /// double precision.
    pub fn next_f64_numerator(&mut self) -> (r: i64)
        requires
            old(self).wf(),
        ensures
            final(self).wf(),
            final(self).state_int() == iter_state(old(self).state_int(), 2),
            r as int == top_bits(iter_state(old(self).state_int(), 1), 26) * 0x800_0000 + top_bits(
                iter_state(old(self).state_int(), 2),
                27,
            ),
            0 <= r < 0x20_0000_0000_0000,
    {
        proof {
            lemma_iter_state_unfold(old(self).state_int(), 1);
            lemma_iter_state_unfold(old(self).state_int(), 2);
            lemma2_to64();
        }
        let a = self.next(26);
        let b = self.next(27);
        (a as i64) * 0x800_0000 + (b as i64)
    }

    /// Returns a pseudorandom, uniformly distributed integer in
    /// `[0, bound)`.
    ///
    /// A power-of-two bound consumes one 31-bit draw and scales it; any other
    /// bound is rejection-sampled: 31-bit draws are reduced modulo the bound
    /// and redrawn as long as the bias-avoidance test rejects them. The
    /// generator has full period, so an accepted draw always arrives within
    /// one period of 2^48 draws.
    pub fn next_i32_bounded(&mut self, bound: i32) -> (r: i32)
        requires
            old(self).wf(),
            bound > 0,
        ensures
            final(self).wf(),
            0 <= r < bound,
            bound_is_pow2(bound as int) ==> final(self).state_int() == next_state(
                old(self).state_int(),
            ) && r as int == bound * draw31(old(self).state_int()) / 0x8000_0000,
            !bound_is_pow2(bound as int) ==> exists|n: nat|
                1 <= n <= 0x1_0000_0000_0000 && #[trigger] iter_state(
                    old(self).state_int(),
                    n,
                ) == final(self).state_int() && !rejects(
                    draw31(iter_state(old(self).state_int(), (n - 1) as nat)),
                    bound as int,
                ) && r as int == draw31(
                    iter_state(old(self).state_int(), (n - 1) as nat),
                ) % (bound as int) && (forall|k: nat|
                    k < n - 1 ==> rejects(
                        draw31(#[trigger] iter_state(old(self).state_int(), k)),
                        bound as int,
                    )),
    {
        let neg_bound = -bound;
        proof {
            lemma_pow2_bound_test(bound, neg_bound);
        }
        if bound & neg_bound == bound {
            let d = self.next(31);
            proof {
                lemma2_to64();
                assert(d < 0x8000_0000);
                vstd::arithmetic::mul::lemma_mul_strict_inequality(
                    d as int,
                    0x8000_0000,
                    bound as int,
                );
                vstd::arithmetic::mul::lemma_mul_is_commutative(bound as int, 0x8000_0000);
                vstd::arithmetic::mul::lemma_mul_nonnegative(bound as int, d as int);
            }
            let prod: i64 = (bound as i64) * (d as i64);
            proof {
                vstd::arithmetic::div_mod::lemma_multiply_divide_lt(
                    prod as int,
                    0x8000_0000,
                    bound as int,
                );
                vstd::arithmetic::div_mod::lemma_div_pos_is_pos(prod as int, 0x8000_0000);
            }
            let res: i64 = prod / 0x8000_0000;
            res as i32
        } else {
            let ghost s0 = old(self).state_int();
            proof {
                crate::period::lemma_sampler_accepts(s0, bound as int);
            }
            let ghost k0: nat = choose|k: nat|
                k < 0x1_0000_0000_0000 && !rejects(
                    draw31(#[trigger] iter_state(s0, k)),
                    bound as int,
                );
            let ghost mut c: nat = 0nat;
            let mut fuel: u64 = 0x1_0000_0000_0001;
            let mut accepted = false;
            let mut result: i32 = 0;
            while !accepted
                invariant
                    self.wf(),
                    bound > 0,
                    !bound_is_pow2(bound as int),
                    self.state_int() == iter_state(s0, c),
                    c + fuel == 0x1_0000_0000_0001,
                    k0 < 0x1_0000_0000_0000,
                    !rejects(draw31(iter_state(s0, k0)), bound as int),
                    !accepted ==> c <= k0,
                    !accepted ==> forall|k: nat|
                        k < c ==> rejects(draw31(#[trigger] iter_state(s0, k)), bound as int),
                    accepted ==> 1 <= c <= 0x1_0000_0000_0000 && (forall|k: nat|
                        k < c - 1 ==> rejects(draw31(#[trigger] iter_state(s0, k)), bound as int))
                        && !rejects(draw31(iter_state(s0, (c - 1) as nat)), bound as int)
                        && result as int == draw31(iter_state(s0, (c - 1) as nat)) % (bound as int)
                        && 0 <= result < bound,
                decreases fuel,
            {
                let bits = self.next(31);
                proof {
                    c = c + 1nat;
                    lemma2_to64();
                    lemma_iter_state_unfold(s0, c);
                }
                fuel = fuel - 1;
                let val = bits % bound;
                let chk: i64 = bits as i64 - val as i64 + bound as i64 - 1;
                if chk < 0x8000_0000 {
                    result = val;
                    accepted = true;
                }
            }
            proof {
                assert(1 <= c && iter_state(s0, c) == self.state_int());
            }
            result
        }
    }

    /// Fills the given byte buffer with pseudorandom bytes, four bytes per
    /// 32-bit draw from low byte to high byte, with one extra draw supplying
    /// the low bytes of a final group of one to three bytes.
    pub fn next_bytes(&mut self, bytes: &mut Vec<i8>)
        requires
            old(self).wf(),
        ensures
            final(self).wf(),
            final(bytes).len() == old(bytes).len(),
            final(self).state_int() == iter_state(
                old(self).state_int(),
                n_byte_draws(old(bytes).len() as nat),
            ),
            forall|j: int|
                0 <= j < old(bytes).len() ==> #[trigger] final(bytes)@[j] as int == stream_byte(
                    old(self).state_int(),
                    j as nat,
                ),
    {
        let len = bytes.len();
        let max = len - (len % 4);
        let ghost s0 = old(self).state_int();
        let mut i: usize = 0;
        while i < max
            invariant
                self.wf(),
                i % 4 == 0,
                i <= max,
                max == len - (len % 4),
                len == bytes@.len(),
                self.state_int() == iter_state(s0, (i / 4) as nat),
                forall|j: int|
                    0 <= j < i ==> #[trigger] bytes@[j] as int == stream_byte(s0, j as nat),
            decreases max - i,
        {
            proof {
                vstd::arithmetic::div_mod::lemma_fundamental_div_mod(len as int, 4);
                assert((max - i) % 4 == 0int) by {
                    vstd::arithmetic::div_mod::lemma_sub_mod_noop(max as int, i as int, 4);
                }
                if max - i < 4 {
                    vstd::arithmetic::div_mod::lemma_small_mod((max - i) as nat, 4nat);
                }
            }
            let s = self.step();
            let u: u64 = s / 0x10000;
            proof {
                lemma_iter_state_unfold(s0, (i / 4 + 1) as nat);
                lemma_group_stream_bytes(s0, i as nat, u as int);
            }
            let b0 = low_byte(u);
            let b1 = low_byte(u / 0x100);
            let b2 = low_byte(u / 0x10000);
            let b3 = low_byte(u / 0x100_0000);
            bytes.set(i, b0);
            bytes.set(i + 1, b1);
            bytes.set(i + 2, b2);
            bytes.set(i + 3, b3);
            proof {
                assert forall|j: int|
                    0 <= j < i + 4 implies #[trigger] bytes@[j] as int == stream_byte(
                    s0,
                    j as nat,
                ) by {
                    if i <= j {
                        assert(j == i || j == i + 1 || j == i + 2 || j == i + 3);
                    }
                }
            }
            i = i + 4;
            proof {
                vstd::arithmetic::div_mod::lemma_mod_add_multiples_vanish(i as int - 4, 4);
                assert((i as int - 4) / 4 + 1 == i as int / 4) by {
                    vstd::arithmetic::div_mod::lemma_hoist_over_denominator(i as int - 4, 1, 4nat);
                }
            }
        }
        if max < len {
            let s = self.step();
            let mut u: u64 = s / 0x10000;
            proof {
                lemma_iter_state_unfold(s0, (max / 4 + 1) as nat);
                lemma_group_stream_bytes(s0, max as nat, u as int);
            }
            let mut idx = max;
            while idx < len
                invariant
                    self.wf(),
                    max <= idx <= len,
                    len - max < 4,
                    max % 4 == 0,
                    max == len - (len % 4),
                    len == bytes@.len(),
                    self.state_int() == iter_state(s0, (max / 4 + 1) as nat),
                    u as int == byte_src(
                        top_u32(iter_state(s0, (max / 4 + 1) as nat)),
                        (idx - max) as nat,
                    ),
                    forall|j: int|
                        0 <= j < idx ==> #[trigger] bytes@[j] as int == stream_byte(s0, j as nat),
                decreases len - idx,
            {
                let b = low_byte(u);
                bytes.set(idx, b);
                proof {
                    lemma_tail_byte(s0, max as int, idx as int, u as int);
                }
                u = u / 0x100;
                proof {
                    lemma_byte_src_step(
                        top_u32(iter_state(s0, (max / 4 + 1) as nat)),
                        (idx - max) as nat,
                    );
                }
                idx = idx + 1;
            }
            proof {
                lemma_byte_draw_count(len as nat, max as nat);
            }
        } else {
            proof {
                lemma_byte_draw_count(len as nat, max as nat);
            }
        }
    }
}

/// Advances the process-wide seed uniquifier: one 64-bit wrapping
/// multiplication by the fixed uniquifier multiplier.
pub fn next_uniquifier(current: i64) -> (r: i64)
    ensures
        r as int == wrap_i64(current as int * SEED_UNIQUIFIER_MULTIPLIER as int),
{
    proof {
        lemma_signed_crop_is_wrap(current as int * SEED_UNIQUIFIER_MULTIPLIER as int);
    }
    current.wrapping_mul(SEED_UNIQUIFIER_MULTIPLIER)
}

/// Combines a fresh uniquifier value with a clock reading into the seed used
/// by default construction.
pub fn seed_from_entropy(uniquifier: i64, clock_nanos: i64) -> (r: i64)
    ensures
        r == uniquifier ^ clock_nanos,
{
    uniquifier ^ clock_nanos
}

/// The top 32 bits of a 48-bit state, as an unsigned value.
pub open spec fn top_u32(s: int) -> int {
    s / 0x10000
}

/// The low eight bits of `v`, read as a two's-complement signed byte.
pub open spec fn byte_signed(v: int) -> int {
    let m = v % 256;
    if m >= 128 {
        m - 256
    } else {
        m
    }
}

/// The `k`-th lowest byte group of a 32-bit draw value `u`: `u` shifted down
/// by `8 * k` bits, for `k` up to three.
pub open spec fn byte_src(u: int, k: nat) -> int {
    if k == 0 {
        u
    } else if k == 1 {
        u / 0x100
    } else if k == 2 {
        u / 0x10000
    } else {
        u / 0x100_0000
    }
}

/// Byte `j` of the pseudorandom byte stream starting from state `s0`: the
/// (j mod 4)-th lowest byte of the top 32 bits produced by draw number
/// `j / 4`.
#[verifier::opaque]
pub open spec fn stream_byte(s0: int, j: nat) -> int {
    byte_signed(byte_src(top_u32(iter_state(s0, j / 4 + 1)), j % 4))
}

/// The number of 32-bit draws a byte fill of length `len` consumes: one per
/// full group of four bytes and one for a trailing partial group.
pub open spec fn n_byte_draws(len: nat) -> nat {
    if len % 4 == 0 {
        len / 4
    } else {
        len / 4 + 1
    }
}

/// The low eight bits of `v` as a signed byte.
fn low_byte(v: u64) -> (r: i8)
    ensures
        r as int == byte_signed(v as int),
{
    let m = v % 256;
    if m >= 128 {
        (m as i64 - 256) as i8
    } else {
        m as i8
    }
}

/// vstd's `signed_crop` agrees with [`wrap_i64`].
proof fn lemma_signed_crop_is_wrap(x: int)
    ensures
        vstd::wrapping::i64_specs::signed_crop(x) as int == wrap_i64(x),
{
    vstd::arithmetic::div_mod::lemma_mod_bound(x, 0x1_0000_0000_0000_0000);
}

/// Values already in the two's-complement range of an `i64` wrap to
/// themselves.
proof fn lemma_wrap_i64_in_range(x: int)
    requires
        -0x8000_0000_0000_0000 <= x < 0x8000_0000_0000_0000,
    ensures
        wrap_i64(x) == x,
{
    if x >= 0 {
        vstd::arithmetic::div_mod::lemma_small_mod(x as nat, 0x1_0000_0000_0000_0000nat);
    } else {
        vstd::arithmetic::div_mod::lemma_fundamental_div_mod_converse(
            x,
            0x1_0000_0000_0000_0000,
            -1,
            x + 0x1_0000_0000_0000_0000,
        );
    }
}

/// Values one range below the `i64` range wrap up by 2^64.
proof fn lemma_wrap_i64_low(x: int)
    requires
        -0x1_0000_0000_0000_0000 <= x < -0x8000_0000_0000_0000,
    ensures
        wrap_i64(x) == x + 0x1_0000_0000_0000_0000,
{
    vstd::arithmetic::div_mod::lemma_fundamental_div_mod_converse(
        x,
        0x1_0000_0000_0000_0000,
        -1,
        x + 0x1_0000_0000_0000_0000,
    );
}

/// The bitwise power-of-two test `b & -b == b` on a positive `i32` (with the
/// negation `nb == -b` passed in) agrees with the arithmetic
/// characterization [`bound_is_pow2`].
proof fn lemma_pow2_bound_test(b: i32, nb: i32)
    requires
        b > 0,
        b + nb == 0,
    ensures
        (b & nb) == b <==> bound_is_pow2(b as int),
{
    assert((b & nb) == b <==> (b == 1 || b == 2 || b == 4 || b == 8 || b == 16 || b == 32 || b
        == 64 || b == 128 || b == 256 || b == 512 || b == 1024 || b == 2048 || b == 4096 || b
        == 8192 || b == 16384 || b == 32768 || b == 65536 || b == 131072 || b == 262144 || b
        == 524288 || b == 1048576 || b == 2097152 || b == 4194304 || b == 8388608 || b == 16777216
        || b == 33554432 || b == 67108864 || b == 134217728 || b == 268435456 || b == 536870912
        || b == 1073741824)) by (bit_vector)
        requires
            b > 0 && b + nb == 0,
    ;
    lemma2_to64();
    if bound_is_pow2(b as int) {
        let j = choose|j: nat| j <= 30 && b == pow2(j);
        assert(pow2(j) == b);
    }
}

/// The top 32 bits of the state reached by draw `d + 1` are below 2^32, and
/// dividing them by 256 zero, one, two and three times isolates the four
/// stream bytes of the group starting at position `i == 4 * (draw index)`.
proof fn lemma_group_stream_bytes(s0: int, i: nat, u: int)
    requires
        0 <= iter_state(s0, (i / 4 + 1) as nat) < 0x1_0000_0000_0000,
        i % 4 == 0,
        u == iter_state(s0, (i / 4 + 1) as nat) / 0x10000,
    ensures
        0 <= u < 0x1_0000_0000,
        u == top_u32(iter_state(s0, (i / 4 + 1) as nat)),
        stream_byte(s0, i) == byte_signed(u),
        stream_byte(s0, (i + 1) as nat) == byte_signed(u / 0x100),
        stream_byte(s0, (i + 2) as nat) == byte_signed(u / 0x10000),
        stream_byte(s0, (i + 3) as nat) == byte_signed(u / 0x100_0000),
{
    reveal(stream_byte);
    vstd::arithmetic::div_mod::lemma_multiply_divide_lt(
        iter_state(s0, (i / 4 + 1) as nat),
        0x10000,
        0x1_0000_0000,
    );
    vstd::arithmetic::div_mod::lemma_div_pos_is_pos(iter_state(s0, (i / 4 + 1) as nat), 0x10000);
    vstd::arithmetic::div_mod::lemma_fundamental_div_mod(i as int, 4);
    vstd::arithmetic::div_mod::lemma_fundamental_div_mod_converse(i as int + 1, 4, i as int / 4, 1);
    vstd::arithmetic::div_mod::lemma_fundamental_div_mod_converse(i as int + 2, 4, i as int / 4, 2);
    vstd::arithmetic::div_mod::lemma_fundamental_div_mod_converse(i as int + 3, 4, i as int / 4, 3);
}

/// A byte of the trailing partial group is the corresponding stream byte.
proof fn lemma_tail_byte(s0: int, max: int, idx: int, u: int)
    requires
        max >= 0,
        max % 4 == 0,
        max <= idx < max + 4,
        u == byte_src(top_u32(iter_state(s0, (max / 4 + 1) as nat)), (idx - max) as nat),
    ensures
        byte_signed(u) == stream_byte(s0, idx as nat),
{
    reveal(stream_byte);
    vstd::arithmetic::div_mod::lemma_fundamental_div_mod(max, 4);
    vstd::arithmetic::div_mod::lemma_fundamental_div_mod_converse(idx, 4, max / 4, idx - max);
}

/// Dividing a byte group by 256 moves to the next byte group.
proof fn lemma_byte_src_step(u: int, k: nat)
    requires
        u >= 0,
        k < 3,
    ensures
        byte_src(u, k) / 0x100 == byte_src(u, k + 1),
{
    if k == 1 {
        vstd::arithmetic::div_mod::lemma_div_denominator(u, 0x100, 0x100);
    } else if k == 2 {
        vstd::arithmetic::div_mod::lemma_div_denominator(u, 0x10000, 0x100);
    }
}

/// The two fill phases together consume exactly `n_byte_draws(len)` draws.
proof fn lemma_byte_draw_count(len: nat, max: nat)
    requires
        max == len - (len % 4nat),
    ensures
        max % 4 == 0,
        max / 4 == len / 4,
        max < len ==> n_byte_draws(len) == max / 4 + 1,
        max == len ==> n_byte_draws(len) == max / 4,
{
    vstd::arithmetic::div_mod::lemma_fundamental_div_mod(len as int, 4);
    vstd::arithmetic::div_mod::lemma_fundamental_div_mod_converse(max as int, 4, len as int / 4, 0);
}

} // verus!
