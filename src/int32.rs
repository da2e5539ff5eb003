//! A 32-bit two's-complement integer held in four radix-256 limbs, each limb an `i16`
//! whose upper byte stays empty.
use crate::limbs::{
    lemma_nibble_split, lemma_value8, lemma_value_bounds, lemma_value_split, lemma_value_window,
    lemma_value_zeros, limb_pow, limbs_ok, u4_array_div_u4_array, u4_array_mul_u4_array, value,
};
use crate::shift::arith_rightshift;
use vstd::arithmetic::div_mod::{
    lemma_div_is_ordered, lemma_fundamental_div_mod, lemma_fundamental_div_mod_converse,
    lemma_mod_bound, lemma_mod_multiples_vanish,
};
use vstd::arithmetic::power2::lemma2_to64;
use vstd::prelude::*;

verus! {

/// 2^32, the modulus of the limb vector.
pub open spec fn modulus() -> int {
    0x1_0000_0000
}

/// `x` reduced to the two's-complement range `[-2^31, 2^31)` modulo 2^32.
pub open spec fn wrap32(x: int) -> int {
    let m = x % modulus();
    if m >= 0x8000_0000 {
        m - modulus()
    } else {
        m
    }
}

/// Division truncating toward zero, as the host's integer division does.
pub open spec fn trunc_div(a: int, d: int) -> int {
    if a < 0 {
        -((-a) / d)
    } else {
        a / d
    }
}

/// `-1`, `0` or `1` by the sign of `x`.
pub open spec fn sign(x: int) -> int {
    if x < 0 {
        -1
    } else if x == 0 {
        0
    } else {
        1
    }
}

/// Division truncating toward zero for divisors of either sign, as the host's
/// integer division does.
pub open spec fn quot(a: int, d: int) -> int {
    if (a < 0) != (d < 0) {
        -(abs_int(a) / abs_int(d))
    } else {
        abs_int(a) / abs_int(d)
    }
}

/// One Newton-Raphson step toward the square root of `n` from the guess `g`.
pub open spec fn newton_step(n: int, g: int) -> int {
    (g + n / g) / 2
}

/// A guess from which a Newton-Raphson step toward the square root of `n` stays
/// positive and in range: at least 1, at least 2 once `n` is 4 or more, and below `n`
/// unless it is one of the small starting guesses.
pub open spec fn guess_ok(n: int, g: int) -> bool {
    &&& 1 <= g
    &&& (g <= n - 1 || g <= 11)
    &&& (n >= 4 ==> g >= 2)
}

/// A Newton-Raphson step from a usable guess neither overflows nor leaves the usable
/// guesses.
pub proof fn lemma_newton_step(n: int, g: int)
    requires
        1 <= n < 0x8000_0000,
        guess_ok(n, g),
    ensures
        0 < g + n / g < 0x8000_0000,
        n / g >= 0,
        guess_ok(n, newton_step(n, g)),
{
    let q = n / g;
    lemma_fundamental_div_mod(n, g);
    lemma_mod_bound(n, g);
    let r = n % g;
    assert(q >= 0) by (nonlinear_arith)
        requires
            n == g * q + r,
            0 <= r < g,
            n >= 1,
    ;
    if g <= n - 1 && g >= 2 {
        assert(q <= n - g) by (nonlinear_arith)
            requires
                n == g * q + r,
                0 <= r < g,
                2 <= g <= n - 1,
        ;
    }
    if g > n {
        assert(q == 0) by (nonlinear_arith)
            requires
                n == g * q + r,
                0 <= r < g,
                g > n,
                n >= 1,
        ;
    }
    if g <= n {
        assert(q <= n) by (nonlinear_arith)
            requires
                n == g * q + r,
                0 <= r < g,
                g >= 1,
                q >= 0,
        ;
        if g >= 1 && g <= n {
            assert(g + q <= n + 1) by (nonlinear_arith)
                requires
                    n == g * q + r,
                    0 <= r < g,
                    1 <= g <= n,
            ;
        }
    }
    if n >= 4 && g <= 3 {
        assert(g + q >= 4) by (nonlinear_arith)
            requires
                n == g * q + r,
                0 <= r < g,
                1 <= g <= 3,
                n >= 4,
        ;
    }
    if g == 1 {
        assert(q == n) by (nonlinear_arith)
            requires
                n == g * q + r,
                0 <= r < g,
                g == 1,
        ;
    }
    let s = g + q;
    assert(newton_step(n, g) == s / 2);
    assert(s / 2 * 2 <= s < s / 2 * 2 + 2);
}

/// The first guess of the square root of `n`, scaled to the highest non-zero limb.
pub open spec fn sqrt_seed(n: int) -> int {
    if n >= 0x100_0000 {
        45056
    } else if n >= 0x1_0000 {
        2816
    } else if n >= 0x100 {
        176
    } else {
        11
    }
}

/// Newton-Raphson steps from `g`, at most `k` of them, stopping early once a step
/// leaves the guess unchanged.
pub open spec fn newton_until_fixed(n: int, g: int, k: nat) -> int
    decreases k,
{
    if k == 0 {
        g
    } else if newton_step(n, g) == g {
        g
    } else {
        newton_until_fixed(n, newton_step(n, g), (k - 1) as nat)
    }
}

/// A Newton-Raphson step never lands below a number whose square is at most `n`.
pub proof fn lemma_newton_above(n: int, g: int, s: int)
    requires
        g >= 1,
        s >= 0,
        s * s <= n,
    ensures
        newton_step(n, g) >= s,
{
    lemma_fundamental_div_mod(n, g);
    lemma_mod_bound(n, g);
    let q = n / g;
    assert(g + q >= 2 * s) by (nonlinear_arith)
        requires
            n == g * q + n % g,
            0 <= n % g < g,
            s * s <= n,
            g >= 1,
            s >= 0,
    ;
}

/// After a Newton-Raphson step the guess is at least the integer square root of `n`.
pub proof fn lemma_newton_root(n: int, g: int)
    requires
        g >= 1,
        n >= 0,
    ensures
        n < (newton_step(n, g) + 1) * (newton_step(n, g) + 1),
{
    let h = newton_step(n, g);
    if (h + 1) * (h + 1) <= n {
        assert(h + 1 >= 0) by (nonlinear_arith)
            requires
                (h + 1) * (h + 1) <= n,
                h >= -1 || h < -1,
                g >= 1,
                n >= 0,
                h == (g + n / g) / 2,
                n / g >= 0,
        ;
        lemma_newton_above(n, g, h + 1);
    }
}

/// From a guess no smaller than the integer square root, a step stays below 46361,
/// which bounds the square root of any 31-bit value.
pub proof fn lemma_newton_bounded(n: int, g: int)
    requires
        1 <= n < 0x8000_0000,
        1 <= g <= 46360,
        n < (g + 1) * (g + 1),
    ensures
        newton_step(n, g) <= 46360,
{
    lemma_fundamental_div_mod(n, g);
    lemma_mod_bound(n, g);
    let q = n / g;
    assert(q <= g + 2) by (nonlinear_arith)
        requires
            n == g * q + n % g,
            0 <= n % g,
            n < (g + 1) * (g + 1),
            g >= 1,
    ;
    if g >= 46341 {
        assert(q < g) by (nonlinear_arith)
            requires
                n == g * q + n % g,
                0 <= n % g,
                n < 0x8000_0000,
                g >= 46341,
        ;
    }
}

/// An integer square root of `n`: `s * s <= n < (s + 1) * (s + 1)`.
pub proof fn lemma_isqrt(n: int) -> (s: int)
    requires
        n >= 0,
    ensures
        s >= 0,
        s * s <= n < (s + 1) * (s + 1),
    decreases n,
{
    if n == 0 {
        0
    } else {
        let t = lemma_isqrt(n - 1);
        if (t + 1) * (t + 1) <= n {
            assert(n < (t + 2) * (t + 2)) by (nonlinear_arith)
                requires
                    n - 1 < (t + 1) * (t + 1),
                    t >= 0,
            ;
            t + 1
        } else {
            t
        }
    }
}

/// The distance to the integer square root that a guess at most `k` steps past the first
/// can still have: 46360, halved at each step, but never below one.
pub open spec fn newton_gap(k: nat) -> int
    decreases k,
{
    if k == 0 {
        46360
    } else {
        let b = newton_gap((k - 1) as nat);
        if b <= 1 {
            1
        } else {
            b / 2
        }
    }
}

pub proof fn lemma_newton_gap(k: nat)
    ensures
        newton_gap(k) >= 1,
        k >= 19 ==> newton_gap(k) == 1,
    decreases k,
{
    if k > 0 {
        lemma_newton_gap((k - 1) as nat);
    }
    if k == 19 {
        reveal_with_fuel(newton_gap, 20);
    }
}

/// From a guess at or above the integer square root `s`, a Newton-Raphson step stays at
/// or above `s` and at least halves the distance to it, or comes within one of it.
pub proof fn lemma_newton_halves(n: int, g: int, s: int)
    requires
        1 <= s,
        s * s <= n < (s + 1) * (s + 1),
        g >= s,
    ensures
        s <= newton_step(n, g),
        g >= s + 1 ==> newton_step(n, g) - s <= (g - s) / 2,
        g == s ==> newton_step(n, g) <= s + 1,
{
    lemma_newton_above(n, g, s);
    lemma_fundamental_div_mod(n, g);
    lemma_mod_bound(n, g);
    let q = n / g;
    if g >= s + 1 {
        assert(q <= s) by (nonlinear_arith)
            requires
                n == g * q + n % g,
                0 <= n % g,
                n < (s + 1) * (s + 1),
                g >= s + 1,
                s >= 1,
        ;
    } else {
        assert(q <= s + 2) by (nonlinear_arith)
            requires
                n == g * q + n % g,
                0 <= n % g,
                n < (s + 1) * (s + 1),
                g == s,
                s >= 1,
        ;
    }
}

/// A guess that one Newton-Raphson step leaves unchanged has a square at most `n`.
pub proof fn lemma_newton_fixed(n: int, g: int)
    requires
        g >= 1,
        n >= 0,
        newton_step(n, g) == g,
    ensures
        g * g <= n,
{
    lemma_fundamental_div_mod(n, g);
    lemma_mod_bound(n, g);
    let q = n / g;
    assert(q >= g);
    assert(g * g <= n) by (nonlinear_arith)
        requires
            n == g * q + n % g,
            0 <= n % g,
            q >= g,
            g >= 1,
    ;
}

/// The first step from the seed stays below 46361.
pub proof fn lemma_seed_step(n: int)
    requires
        1 <= n < 0x8000_0000,
    ensures
        newton_step(n, sqrt_seed(n)) <= 46360,
{
    let g = sqrt_seed(n);
    if n >= 0x100_0000 {
        lemma_div_is_ordered(n, 0x7FFF_FFFF, g);
    } else if n >= 0x1_0000 {
        lemma_div_is_ordered(n, 0xFF_FFFF, g);
    } else if n >= 0x100 {
        lemma_div_is_ordered(n, 0xFFFF, g);
    } else {
        lemma_div_is_ordered(n, 0xFF, g);
    }
}

/// Absolute value.
pub open spec fn abs_int(x: int) -> int {
    if x < 0 {
        -x
    } else {
        x
    }
}

/// `256^k` for a limb count `k`.
pub open spec fn byte_scale(k: int) -> int {
    if k <= 0 {
        1
    } else if k == 1 {
        0x100
    } else if k == 2 {
        0x1_0000
    } else {
        0x100_0000
    }
}

/// Adding a multiple of 2^32 does not change the wrapped value.
pub proof fn lemma_wrap_shift(x: int, k: int)
    ensures
        wrap32(x + k * modulus()) == wrap32(x),
{
    lemma_mod_multiples_vanish(k, x, modulus());
    assert(modulus() * k + x == x + k * modulus()) by (nonlinear_arith);
}

/// The wrapped value differs from `x` by a multiple of 2^32.
pub proof fn lemma_wrap_is_shift(x: int) -> (k: int)
    ensures
        wrap32(x) == x + k * modulus(),
{
    lemma_fundamental_div_mod(x, modulus());
    let q = x / modulus();
    if x % modulus() >= 0x8000_0000 {
        assert(wrap32(x) == x + (-q - 1) * modulus()) by (nonlinear_arith)
            requires
                x == modulus() * q + x % modulus(),
                wrap32(x) == x % modulus() - modulus(),
        ;
        -q - 1
    } else {
        assert(wrap32(x) == x + (-q) * modulus()) by (nonlinear_arith)
            requires
                x == modulus() * q + x % modulus(),
                wrap32(x) == x % modulus(),
        ;
        -q
    }
}

/// Wrapping an intermediate sum does not change the wrapped total.
pub proof fn lemma_wrap_add(x: int, y: int)
    ensures
        wrap32(wrap32(x) + y) == wrap32(x + y),
{
    let k = lemma_wrap_is_shift(x);
    lemma_wrap_shift(x + y, k);
}

/// Reducing modulo 2^32 first does not change the wrapped value.
pub proof fn lemma_wrap_mod(x: int)
    ensures
        wrap32(x % modulus()) == wrap32(x),
{
    lemma_fundamental_div_mod(x, modulus());
    lemma_wrap_shift(x % modulus(), x / modulus());
    assert(x % modulus() + (x / modulus()) * modulus() == x) by (nonlinear_arith)
        requires
            x == modulus() * (x / modulus()) + x % modulus(),
    ;
}

/// Wrapping before negating does not change the wrapped result.
pub proof fn lemma_wrap_neg(x: int)
    ensures
        wrap32(-wrap32(x)) == wrap32(-x),
{
    let k = lemma_wrap_is_shift(x);
    lemma_wrap_shift(-x, -k);
}

/// The product of the magnitudes of `a` and `b`, shifted right by `k` limbs, with the
/// sign of the product.
pub open spec fn mul_shift(a: int, b: int, k: int) -> int {
    let m = abs_int(a) * abs_int(b) / byte_scale(k);
    if (a < 0) != (b < 0) {
        -m
    } else {
        m
    }
}

/// `x` lies in the two's-complement range of 32 bits.
pub open spec fn fits32(x: int) -> bool {
    -0x8000_0000 <= x < 0x8000_0000
}

/// The magnitude of `x` as eight radix-16 limbs.
fn magnitude(x: &Int32) -> (r: [i16; 8])
    requires
        x.wf(),
    ensures
        limbs_ok(r@, 16),
        value(r@, 16) == abs_int(x.val()),
{
    let mut m = *x;
    m.do_abs();
    proof {
        x.lemma_val();
        if x.val() != -0x8000_0000 {
            lemma_wrap_small(abs_int(x.val()));
        }
        m.lemma_bits_abs();
    }
    nibbles(&m)
}

/// The limbs of `x` split into eight radix-16 limbs.
fn nibbles(x: &Int32) -> (r: [i16; 8])
    requires
        x.wf(),
    ensures
        limbs_ok(r@, 16),
        value(r@, 16) == x.bits(),
{
    let p = x.parts;
    proof {
        lemma2_to64();
        lemma_nibble_split(p[0]);
        lemma_nibble_split(p[1]);
        lemma_nibble_split(p[2]);
        lemma_nibble_split(p[3]);
    }
    let r = [
        p[0] & 0x0F,
        arith_rightshift(p[0], 4),
        p[1] & 0x0F,
        arith_rightshift(p[1], 4),
        p[2] & 0x0F,
        arith_rightshift(p[2], 4),
        p[3] & 0x0F,
        arith_rightshift(p[3], 4),
    ];
    proof {
        lemma_value8(r@);
    }
    r
}

/// `16^(2k)` is `256^k`, and `16^8` is the modulus.
pub proof fn lemma_nibble_scale(k: int)
    requires
        0 <= k <= 3,
    ensures
        limb_pow(16, (2 * k) as nat) == byte_scale(k),
        limb_pow(16, 8) == modulus(),
{
    reveal_with_fuel(limb_pow, 9);
}

/// Four radix-256 limbs read from a radix-16 vector, starting `k` bytes up.
fn take_bytes(w: &[i16; 16], k: usize) -> (r: Int32)
    requires
        limbs_ok(w@, 16),
        k <= 3,
        value(w@, 16) / byte_scale(k as int) < modulus(),
    ensures
        r.wf(),
        r.bits() == value(w@, 16) / byte_scale(k as int),
{
    let s2 = k * 2;
    proof {
        lemma_nibble_scale(k as int);
        lemma_value_window(w@, s2 as int, 8);
        lemma_value8(w@.subrange(s2 as int, s2 + 8));
    }
    let p0 = w[s2] + w[s2 + 1] * 16;
    let p1 = w[s2 + 2] + w[s2 + 3] * 16;
    let p2 = w[s2 + 4] + w[s2 + 5] * 16;
    let p3 = w[s2 + 6] + w[s2 + 7] * 16;
    Int32 { parts: [p0, p1, p2, p3] }
}

/// The magnitude `m` of sixteen radix-16 limbs placed `k` bytes up.
pub(crate) fn widen_shifted(m: &[i16; 8], k: usize) -> (e: [i16; 16])
    requires
        limbs_ok(m@, 16),
        k <= 3,
    ensures
        limbs_ok(e@, 16),
        value(e@, 16) == value(m@, 16) * byte_scale(k as int),
{
    let s2 = 2 * k;
    let mut e = [0i16; 16];
    let mut i: usize = 0;
    while i < 16
        invariant
            0 <= i <= 16,
            s2 == 2 * k,
            k <= 3,
            limbs_ok(m@, 16),
            forall|t: int|
                0 <= t < 16 ==> #[trigger] e@[t] == if t < i && s2 <= t < s2 + 8 {
                    m@[t - s2]
                } else {
                    0
                },
        decreases 16 - i,
    {
        if i >= s2 && i < s2 + 8 {
            e[i] = m[i - s2];
        }
        i += 1;
    }
    proof {
        lemma_value_split(e@, s2 as int, 16);
        lemma_value_zeros(e@.subrange(0, s2 as int), 16);
        let hi = e@.subrange(s2 as int, 16);
        lemma_value_split(hi, 8, 16);
        assert(hi.subrange(0, 8) =~= m@);
        lemma_value_zeros(hi.subrange(8, hi.len() as int), 16);
        lemma_nibble_scale(k as int);
        assert(limb_pow(16, s2 as nat) * value(m@, 16) == value(m@, 16) * byte_scale(k as int))
            by (nonlinear_arith)
            requires
                limb_pow(16, s2 as nat) == byte_scale(k as int),
        ;
    }
    e
}

/// The low 32 bits of sixteen radix-16 limbs, as four radix-256 limbs.
fn low_bytes(w: &[i16; 16]) -> (r: Int32)
    requires
        limbs_ok(w@, 16),
    ensures
        r.wf(),
        r.bits() == value(w@, 16) % modulus(),
{
    let r = Int32 {
        parts: [w[0] + w[1] * 16, w[2] + w[3] * 16, w[4] + w[5] * 16, w[6] + w[7] * 16],
    };
    proof {
        lemma_value_split(w@, 8, 16);
        lemma_value8(w@.subrange(0, 8));
        assert(limbs_ok(w@.subrange(0, 8), 16));
        assert(limbs_ok(w@.subrange(8, 16), 16));
        lemma_value_bounds(w@.subrange(8, 16), 16);
        lemma_nibble_scale(0);
        let lo = value(w@.subrange(0, 8), 16);
        let hi = value(w@.subrange(8, 16), 16);
        assert(value(w@, 16) == hi * modulus() + lo) by (nonlinear_arith)
            requires
                value(w@, 16) == lo + limb_pow(16, 8) * hi,
                limb_pow(16, 8) == modulus(),
        ;
        lemma_fundamental_div_mod_converse(value(w@, 16), modulus(), hi, lo);
    }
    r
}

/// A value in the two's-complement range wraps to itself.
pub proof fn lemma_wrap_small(x: int)
    requires
        -0x8000_0000 <= x < 0x8000_0000,
    ensures
        wrap32(x) == x,
{
    if x < 0 {
        lemma_fundamental_div_mod_converse(x, modulus(), -1, x + modulus());
    } else {
        lemma_fundamental_div_mod_converse(x, modulus(), 0, x);
    }
}

proof fn lemma_add_bits(r: Int32, a: Int32, b: Int32, c: int)
    requires
        r.wf(),
        a.wf(),
        b.wf(),
        r.bits() == a.bits() + b.bits() - c * modulus(),
    ensures
        r.val() == wrap32(a.val() + b.val()),
{
    a.lemma_val();
    b.lemma_val();
    r.lemma_val();
    lemma_wrap_shift(a.bits() + b.bits(), -c);
    lemma_wrap_add(a.bits(), b.bits());
    lemma_wrap_add(b.bits(), a.val());
    lemma_wrap_add(a.val(), b.val());
}

/// A 32-bit two's-complement integer in four radix-256 limbs.
#[derive(Clone, Copy)]
pub struct Int32 {
    /// Least significant limb first; each limb lies in `[0, 255]`.
    pub parts: [i16; 4],
}

impl Int32 {
    /// Every limb lies in `[0, 255]`.
    pub open spec fn wf(&self) -> bool {
        limbs_ok(self.parts@, 256)
    }

    /// The limbs read as an unsigned number.
    pub open spec fn bits(&self) -> int {
        self.parts[0] + 0x100 * self.parts[1] + 0x1_0000 * self.parts[2] + 0x100_0000
            * self.parts[3]
    }

    /// The two's-complement value: the sign is the top bit of the highest limb.
    pub open spec fn val(&self) -> int {
        if self.parts[3] >= 128 {
            self.bits() - modulus()
        } else {
            self.bits()
        }
    }

    /// Builds the value `i`, sign-extended into the upper limbs.
    pub fn from(i: i16) -> (r: Int32)
        ensures
            r.wf(),
            r.val() == i,
    {
        let i_low = i & 0xFF;
        let hh = arith_rightshift(i, 8);
        let i_high = hh & 0xFF;
        let smear: i16 = if i < 0 {
            0xFF
        } else {
            0
        };
        proof {
            lemma2_to64();
            let h = (i as int) / 256;
            assert((i & 0xFF) as int == (i as int) % 256) by (bit_vector);
            assert(-128 <= h < 128);
            assert(hh & 0xFF == if hh < 0 { hh + 256 } else { hh as int }) by (bit_vector)
                requires
                    -128 <= hh < 128,
            ;
        }
        let r = Int32 { parts: [i_low, i_high, smear, smear] };
        r
    }

    /// Builds the value `i` from its four bytes.
    pub fn from_i32(i: i32) -> (r: Int32)
        ensures
            r.wf(),
            r.val() == i,
    {
        let b0 = (i & 0xFF) as i16;
        let b1 = ((i >> 8u32) & 0xFF) as i16;
        let b2 = ((i >> 16u32) & 0xFF) as i16;
        let b3 = ((i >> 24u32) & 0xFF) as i16;
        proof {
            assert(0 <= (i & 0xFF) < 256) by (bit_vector);
            assert(0 <= ((i >> 8u32) & 0xFF) < 256) by (bit_vector);
            assert(0 <= ((i >> 16u32) & 0xFF) < 256) by (bit_vector);
            assert(0 <= ((i >> 24u32) & 0xFF) < 256) by (bit_vector);
            assert((i & 0xFF) + 0x100 * ((i >> 8u32) & 0xFF) + 0x1_0000 * ((i >> 16u32) & 0xFF)
                + 0x100_0000 * ((i >> 24u32) & 0xFF) == if i < 0 {
                i + 0x1_0000_0000
            } else {
                i as int
            }) by (bit_vector);
            assert((((i >> 24u32) & 0xFF) >= 128) == (i < 0)) by (bit_vector);
        }
        Int32 { parts: [b0, b1, b2, b3] }
    }

    /// The value lies in the two's-complement range and is its own wrap.
    pub proof fn lemma_val(&self)
        requires
            self.wf(),
        ensures
            -0x8000_0000 <= self.val() < 0x8000_0000,
            0 <= self.bits() < modulus(),
            wrap32(self.val()) == self.val(),
            self.val() == wrap32(self.bits()),
    {
        lemma_wrap_small(self.val());
        lemma_wrap_shift(self.val(), 1);
        assert(self.bits() == self.val() || self.bits() == self.val() + 1 * modulus());
    }

    /// Adds `other`, wrapping modulo 2^32.
    pub fn do_add(&mut self, other: &Int32)
        requires
            old(self).wf(),
            other.wf(),
        ensures
            final(self).wf(),
            final(self).val() == wrap32(old(self).val() + other.val()),
    {
        let mut p0 = self.parts[0] + other.parts[0];
        let mut p1 = self.parts[1] + other.parts[1];
        let mut p2 = self.parts[2] + other.parts[2];
        let mut p3 = self.parts[3] + other.parts[3];

        if p0 >= 256 {
            p0 -= 256;
            p1 += 1;
        }
        if p1 >= 256 {
            p1 -= 256;
            p2 += 1;
        }
        if p2 >= 256 {
            p2 -= 256;
            p3 += 1;
        }
        if p3 >= 256 {
            p3 -= 256;
        }
        let ghost a = *self;
        self.parts = [p0, p1, p2, p3];
        proof {
            let c: int = if a.bits() + other.bits() >= modulus() {
                1
            } else {
                0
            };
            assert(self.bits() == a.bits() + other.bits() - c * modulus());
            lemma_add_bits(*self, a, *other, c);
        }
    }

    /// Negates in two's complement: complement every limb, then add one with carry.
    pub fn do_neg(&mut self)
        requires
            old(self).wf(),
        ensures
            final(self).wf(),
            final(self).val() == wrap32(-old(self).val()),
    {
        proof {
            let p = self.parts;
            assert(forall|x: i16| 0 <= x < 256 ==> #[trigger] (!x & 0xFF) == 255 - x)
                by (bit_vector);
        }
        self.parts[0] = !self.parts[0] & 0xFF;
        self.parts[1] = !self.parts[1] & 0xFF;
        self.parts[2] = !self.parts[2] & 0xFF;
        self.parts[3] = !self.parts[3] & 0xFF;
        self.parts[0] += 1;

        if self.parts[0] >= 256 {
            self.parts[0] -= 256;
            self.parts[1] += 1;
        }
        if self.parts[1] >= 256 {
            self.parts[1] -= 256;
            self.parts[2] += 1;
        }
        if self.parts[2] >= 256 {
            self.parts[2] -= 256;
            self.parts[3] += 1;
        }
        if self.parts[3] >= 256 {
            self.parts[3] -= 256;
        }
    }

    /// Subtracts `other` by adding its negation, wrapping modulo 2^32.
    pub fn do_sub(&mut self, other: &Int32)
        requires
            old(self).wf(),
            other.wf(),
        ensures
            final(self).wf(),
            final(self).val() == wrap32(old(self).val() - other.val()),
    {
        let mut neg = *other;
        neg.do_neg();
        self.do_add(&neg);
        proof {
            lemma_wrap_add(-other.val(), old(self).val());
        }
    }

    /// The unsigned reading of a non-negative value, or of the most negative one,
    /// is its absolute value.
    pub proof fn lemma_bits_abs(&self)
        requires
            self.wf(),
            self.val() >= 0 || self.val() == -0x8000_0000,
        ensures
            self.bits() == abs_int(self.val()),
    {
    }

    /// Shifts right by whole limbs, truncating toward zero: the magnitude is shifted
    /// and the sign put back.
    pub fn do_right_shift_bytes(&mut self, bytes: usize)
        requires
            old(self).wf(),
            bytes <= 3,
        ensures
            final(self).wf(),
            final(self).val() == trunc_div(old(self).val(), byte_scale(bytes as int)),
    {
        let ghost a = *self;
        if bytes == 0 {
            assert(a.val() / 1 == a.val());
            return;
        }
        let is_neg = self.is_negative();
        if is_neg {
            self.do_neg();
        }
        proof {
            a.lemma_val();
            if is_neg {
                if a.val() != -0x8000_0000 {
                    lemma_wrap_small(-a.val());
                }
            }
            self.lemma_bits_abs();
        }
        let ghost m = *self;
        let p1 = self.parts[bytes];
        let p2 = if bytes + 1 <= 3 {
            self.parts[bytes + 1]
        } else {
            0
        };
        let p3 = if bytes + 2 <= 3 {
            self.parts[bytes + 2]
        } else {
            0
        };
        self.parts = [p1, p2, p3, 0];
        proof {
            let d = byte_scale(bytes as int);
            let rem: int = if bytes == 1 {
                m.parts[0] as int
            } else if bytes == 2 {
                m.parts[0] + 0x100 * m.parts[1]
            } else {
                m.parts[0] + 0x100 * m.parts[1] + 0x1_0000 * m.parts[2]
            };
            if bytes == 1 {
                assert(m.bits() == self.bits() * d + rem);
            } else if bytes == 2 {
                assert(m.bits() == self.bits() * d + rem);
            } else {
                assert(m.bits() == self.bits() * d + rem);
            }
            lemma_fundamental_div_mod_converse(m.bits(), d, self.bits(), rem);
            assert(self.bits() < 0x100_0000);
        }
        if is_neg {
            self.do_neg();
            proof {
                lemma_wrap_small(-(abs_int(a.val()) / byte_scale(bytes as int)));
            }
        }
    }

    /// Shifts left by whole limbs, filling with zero limbs and wrapping modulo 2^32.
    pub fn do_left_shift_bytes(&mut self, bytes: usize)
        requires
            old(self).wf(),
            bytes <= 3,
        ensures
            final(self).wf(),
            final(self).val() == wrap32(old(self).val() * byte_scale(bytes as int)),
    {
        let ghost a = *self;
        proof {
            a.lemma_val();
        }
        if bytes == 0 {
            return;
        }
        let p3 = self.parts[3 - bytes];
        let p2 = if 2 >= bytes {
            self.parts[2 - bytes]
        } else {
            0
        };
        let p1 = if 1 >= bytes {
            self.parts[1 - bytes]
        } else {
            0
        };
        self.parts = [0, p1, p2, p3];
        proof {
            let d = byte_scale(bytes as int);
            let high: int = if bytes == 1 {
                a.parts[3] as int
            } else if bytes == 2 {
                a.parts[2] + 0x100 * a.parts[3]
            } else {
                a.parts[1] + 0x100 * a.parts[2] + 0x1_0000 * a.parts[3]
            };
            if bytes == 1 {
                assert(d == 0x100);
                assert(self.parts[1] == a.parts[0] && self.parts[2] == a.parts[1] && self.parts[3]
                    == a.parts[2]);
                assert(a.bits() * d == self.bits() + high * modulus());
            } else if bytes == 2 {
                assert(d == 0x1_0000);
                assert(self.parts[1] == 0 && self.parts[2] == a.parts[0] && self.parts[3]
                    == a.parts[1]);
                assert(a.bits() * d == self.bits() + high * modulus());
            } else {
                assert(d == 0x100_0000);
                assert(self.parts[1] == 0 && self.parts[2] == 0 && self.parts[3] == a.parts[0]);
                assert(a.bits() * d == self.bits() + high * modulus());
            }
            self.lemma_val();
            lemma_wrap_shift(self.bits(), high);
            let s: int = if a.parts[3] >= 128 {
                1
            } else {
                0
            };
            assert(a.bits() == a.val() + s * modulus());
            assert(a.bits() * d == a.val() * d + (s * d) * modulus()) by (nonlinear_arith)
                requires
                    a.bits() == a.val() + s * modulus(),
            ;
            lemma_wrap_shift(a.val() * d, s * d);
        }
    }

    /// Multiplies by `other`.
    pub fn do_mul(&mut self, other: &Int32)
        requires
            old(self).wf(),
            other.wf(),
            fits32(mul_shift(old(self).val(), other.val(), 0)),
        ensures
            final(self).wf(),
            final(self).val() == mul_shift(old(self).val(), other.val(), 0),
    {
        self.do_mul_right_shift_bytes(other, 0);
    }

    /// Multiplies by `other` and shifts the product right by whole limbs. The magnitudes
    /// are multiplied limb by limb and the sign of the product put back; no limb of the
    /// shifted product may lie beyond the four that are kept.
    pub fn do_mul_right_shift_bytes(&mut self, other: &Int32, right_shift_bytes: usize)
        requires
            old(self).wf(),
            other.wf(),
            right_shift_bytes <= 3,
            fits32(mul_shift(old(self).val(), other.val(), right_shift_bytes as int)),
        ensures
            final(self).wf(),
            final(self).val() == mul_shift(old(self).val(), other.val(), right_shift_bytes as int),
    {
        let ghost a = self.val();
        let ghost b = other.val();
        let is_result_neg = self.is_negative() ^ other.is_negative();
        proof {
            assert(abs_int(a) * abs_int(b) / byte_scale(right_shift_bytes as int) < modulus());
        }
        let self_parts_expanded = magnitude(self);
        let other_parts_expanded = magnitude(other);
        let result = u4_array_mul_u4_array(&self_parts_expanded, &other_parts_expanded);
        *self = take_bytes(&result, right_shift_bytes);
        proof {
            self.lemma_val();
        }
        if is_result_neg {
            self.do_neg();
            proof {
                lemma_wrap_neg(self.bits());
            }
        }
        proof {
            let m = abs_int(a) * abs_int(b) / byte_scale(right_shift_bytes as int);
            if is_result_neg {
                lemma_wrap_small(-m);
            } else {
                lemma_wrap_small(m);
            }
        }
    }

    /// Divides by `other`, truncating toward zero.
    pub fn do_div(&mut self, other: &Int32)
        requires
            old(self).wf(),
            other.wf(),
            other.val() != 0,
            fits32(quot(old(self).val(), other.val())),
        ensures
            final(self).wf(),
            final(self).val() == quot(old(self).val(), other.val()),
    {
        proof {
            assert(old(self).val() * 1 == old(self).val());
        }
        self.do_left_shift_bytes_div(0, other);
    }

    /// Shifts the dividend left by whole limbs and divides it by `other`. The shifted
    /// magnitude is divided by the divisor's magnitude with long division on radix-16
    /// limbs, the low 32 bits kept, and the sign of the quotient put back.
    pub fn do_left_shift_bytes_div(&mut self, left_shift_bytes: usize, other: &Int32)
        requires
            old(self).wf(),
            other.wf(),
            left_shift_bytes <= 3,
            other.val() != 0,
            fits32(quot(old(self).val() * byte_scale(left_shift_bytes as int), other.val())),
        ensures
            final(self).wf(),
            final(self).val() == quot(
                old(self).val() * byte_scale(left_shift_bytes as int),
                other.val(),
            ),
    {
        let ghost a = self.val();
        let ghost b = other.val();
        let is_result_neg = self.is_negative() ^ other.is_negative();
        let self_magnitude = magnitude(self);
        let self_parts_expanded = widen_shifted(&self_magnitude, left_shift_bytes);
        let other_parts_expanded = magnitude(other);
        let mut divisor_size: usize = 8;
        while divisor_size > 0 && other_parts_expanded[divisor_size - 1] == 0
            invariant
                0 <= divisor_size <= 8,
                forall|t: int| divisor_size <= t < 8 ==> other_parts_expanded@[t] == 0,
            decreases divisor_size,
        {
            divisor_size -= 1;
        }
        proof {
            if divisor_size == 0 {
                lemma_value_zeros(other_parts_expanded@, 16);
            }
        }
        let result = u4_array_div_u4_array(
            &self_parts_expanded,
            &other_parts_expanded,
            divisor_size,
        );
        *self = low_bytes(&result);
        proof {
            self.lemma_val();
            let s = byte_scale(left_shift_bytes as int);
            let m = abs_int(a) * s / abs_int(b);
            assert(abs_int(a * s) == abs_int(a) * s) by (nonlinear_arith)
                requires
                    s >= 1,
            ;
            assert((a * s < 0) == (a < 0)) by (nonlinear_arith)
                requires
                    s >= 1,
            ;
            lemma_wrap_mod(m);
        }
        if is_result_neg {
            self.do_neg();
            proof {
                lemma_wrap_neg(self.bits());
                lemma_wrap_neg(abs_int(a) * byte_scale(left_shift_bytes as int) / abs_int(b));
            }
        }
    }

    /// The first guess for the square root: 11 scaled by 16 for each limb above the
    /// lowest that holds a set bit.
    fn initial_sqrt_guess(&self) -> (r: Int32)
        requires
            self.wf(),
            self.val() >= 0,
        ensures
            r.wf(),
            r.val() == sqrt_seed(self.val()),
    {
        proof {
            self.lemma_val();
            lemma_wrap_small(45056);
            lemma_wrap_small(2816);
            lemma_wrap_small(176);
        }
        if self.parts[3] > 0 {
            let mut x = Int32::from(11);
            let y = Int32::from(4096);
            assert(x.val() == 11 && y.val() == 4096);
            assert(abs_int(x.val()) == 11 && abs_int(y.val()) == 4096);
            assert(abs_int(x.val()) * abs_int(y.val()) == 45056);
            x.do_mul(&y);
            assert(mul_shift(11, 4096, 0) == wrap32(45056));
            return x;
        }
        if self.parts[2] > 0 {
            let mut x = Int32::from(11);
            let y = Int32::from(256);
            assert(x.val() == 11 && y.val() == 256);
            assert(abs_int(x.val()) == 11 && abs_int(y.val()) == 256);
            assert(abs_int(x.val()) * abs_int(y.val()) == 2816);
            x.do_mul(&y);
            assert(mul_shift(11, 256, 0) == wrap32(2816));
            return x;
        }
        if self.parts[1] > 0 {
            let mut x = Int32::from(11);
            let y = Int32::from(16);
            assert(x.val() == 11 && y.val() == 16);
            assert(abs_int(x.val()) == 11 && abs_int(y.val()) == 16);
            assert(abs_int(x.val()) * abs_int(y.val()) == 176);
            x.do_mul(&y);
            assert(mul_shift(11, 16, 0) == wrap32(176));
            return x;
        }
        Int32::from(11)
    }

    /// Replaces a non-negative value by its square root by Newton-Raphson iteration from
    /// the seed guess: at most twenty steps, stopping once a step leaves the guess
    /// unchanged. Zero stays zero. The result is at least the integer square root.
    pub fn do_sqrt(&mut self)
        requires
            old(self).wf(),
            old(self).val() >= 0,
        ensures
            final(self).wf(),
            final(self).val() == if old(self).val() == 0 {
                0
            } else {
                newton_until_fixed(old(self).val(), sqrt_seed(old(self).val()), 20)
            },
            0 <= final(self).val() <= 46360,
            old(self).val() < (final(self).val() + 1) * (final(self).val() + 1),
            old(self).val() > 0 ==> (final(self).val() - 1) * (final(self).val() - 1) <= old(
                self,
            ).val(),
    {
        if self.is_zero() {
            return;
        }
        let ghost n = self.val();
        proof {
            self.lemma_val();
        }
        let ghost s = lemma_isqrt(n);
        proof {
            assert(s >= 1) by (nonlinear_arith)
                requires
                    n < (s + 1) * (s + 1),
                    n >= 1,
                    s >= 0,
            ;
        }
        let mut guess = self.initial_sqrt_guess();
        let mut i: usize = 0;
        let mut done = false;
        while i < 20 && !done
            invariant
                0 <= i <= 20,
                self.wf(),
                self.val() == n,
                1 <= n < 0x8000_0000,
                guess.wf(),
                guess_ok(n, guess.val()),
                1 <= guess.val() <= 46360,
                guess.val() == sqrt_seed(n) || n < (guess.val() + 1) * (guess.val() + 1),
                done ==> n < (guess.val() + 1) * (guess.val() + 1),
                i > 0 ==> n < (guess.val() + 1) * (guess.val() + 1),
                1 <= s,
                s * s <= n < (s + 1) * (s + 1),
                i > 0 && !done ==> s <= guess.val() <= s + newton_gap((i - 1) as nat),
                done ==> guess.val() * guess.val() <= n,
                done ==> newton_until_fixed(n, guess.val(), (20 - i) as nat) == guess.val(),
                newton_until_fixed(n, guess.val(), (20 - i) as nat) == newton_until_fixed(
                    n,
                    sqrt_seed(n),
                    20,
                ),
            decreases 20 - i + if done {
                0int
            } else {
                1int
            },
        {
            let ghost g = guess.val();
            proof {
                lemma_newton_step(n, g);
                lemma_newton_root(n, g);
                if g == sqrt_seed(n) {
                    lemma_seed_step(n);
                } else {
                    lemma_newton_bounded(n, g);
                }
                lemma_wrap_small(n / g);
                lemma_wrap_small(g + n / g);
                lemma_wrap_small((g + n / g) / 2);
            }
            let mut inv = *self;
            inv.do_div(&guess);
            let mut new_guess = guess;
            new_guess.do_add(&inv);
            new_guess.do_div(&Int32::from(2));
            proof {
                lemma_wrap_small(newton_step(n, g) - g);
                let h = newton_step(n, g);
                lemma_newton_gap(i as nat);
                if i == 0 {
                    lemma_newton_above(n, g, s);
                } else {
                    lemma_newton_gap((i - 1) as nat);
                    lemma_newton_halves(n, g, s);
                }
                if h == g {
                    lemma_newton_fixed(n, g);
                }
            }
            if new_guess.cmp(&guess) == 0 {
                done = true;
            } else {
                guess = new_guess;
                i += 1;
            }
        }
        proof {
            let g = guess.val();
            lemma_newton_gap(19);
            if done {
                assert((g - 1) * (g - 1) <= g * g) by (nonlinear_arith)
                    requires
                        g >= 1,
                ;
            } else {
                assert((g - 1) * (g - 1) <= s * s) by (nonlinear_arith)
                    requires
                        s <= g <= s + 1,
                        s >= 1,
                ;
            }
        }
        self.parts = guess.parts;
    }

    pub fn is_zero(&self) -> (r: bool)
        requires
            self.wf(),
        ensures
            r == (self.val() == 0),
    {
        self.parts[0] == 0 && self.parts[1] == 0 && self.parts[2] == 0 && self.parts[3] == 0
    }

    pub fn is_negative(&self) -> (r: bool)
        requires
            self.wf(),
        ensures
            r == (self.val() < 0),
    {
        self.parts[3] >= 128
    }

    pub fn is_positive(&self) -> (r: bool)
        requires
            self.wf(),
        ensures
            r == (self.val() > 0),
    {
        !self.is_zero() && self.parts[3] < 128
    }

    /// Sets the value to zero.
    pub fn do_zero(&mut self)
        ensures
            final(self).wf(),
            final(self).val() == 0,
    {
        self.parts[0] = 0;
        self.parts[1] = 0;
        self.parts[2] = 0;
        self.parts[3] = 0;
    }

    /// Replaces the value by its absolute value; the most negative value stays as it is.
    pub fn do_abs(&mut self)
        requires
            old(self).wf(),
        ensures
            final(self).wf(),
            final(self).val() == wrap32(abs_int(old(self).val())),
    {
        if self.is_negative() {
            self.do_neg();
        }
    }

    /// Three-way comparison: `-1`, `0` or `1` as `self` is below, equal to or above
    /// `other`. Operands of different sign are ordered by their signs; otherwise the sign
    /// of their difference, which then cannot overflow, decides.
    pub fn cmp(&self, other: &Int32) -> (r: i16)
        requires
            self.wf(),
            other.wf(),
        ensures
            r == sign(self.val() - other.val()),
    {
        let self_neg = self.is_negative();
        let other_neg = other.is_negative();
        if self_neg && !other_neg {
            return -1;
        }
        if !self_neg && other_neg {
            return 1;
        }
        proof {
            self.lemma_val();
            other.lemma_val();
            lemma_wrap_small(self.val() - other.val());
        }
        let mut r = *self;
        r.do_sub(other);
        if r.is_zero() {
            0
        } else if r.is_negative() {
            -1
        } else {
            1
        }
    }

    /// The value as a host integer.
    pub fn to_i32(&self) -> (r: i32)
        requires
            self.wf(),
        ensures
            r == self.val(),
    {
        let top: i32 = if self.parts[3] >= 128 {
            self.parts[3] as i32 - 256
        } else {
            self.parts[3] as i32
        };
        top * 0x100_0000 + (self.parts[2] as i32) * 0x1_0000 + (self.parts[1] as i32) * 0x100
            + self.parts[0] as i32
    }

    pub fn is_even(&self) -> (r: bool)
        requires
            self.wf(),
        ensures
            r == (self.val() % 2 == 0),
    {
        proof {
            let p0 = self.parts[0];
            assert((p0 & 1 == 0) == (p0 % 2 == 0)) by (bit_vector);
        }
        (self.parts[0] & 0x1) == 0
    }
}

} // verus!
