//! A 32-bit two's-complement integer held in eight radix-16 limbs. Multiplication and
//! division work limb by limb on those limbs directly.
use crate::int32::{
    abs_int, byte_scale, fits32, guess_ok, lemma_isqrt, lemma_newton_above, lemma_newton_bounded,
    lemma_newton_fixed, lemma_newton_gap, lemma_newton_halves, lemma_newton_root,
    lemma_newton_step, lemma_nibble_scale, lemma_seed_step, lemma_wrap_add, lemma_wrap_mod,
    lemma_wrap_neg, lemma_wrap_shift, lemma_wrap_small, modulus, mul_shift, newton_gap,
    newton_step, newton_until_fixed, quot, sqrt_seed, trunc_div, widen_shifted, wrap32,
};
use crate::limbs::{
    lemma_div_lt, lemma_pow_adds, lemma_pow_pos, lemma_value8, lemma_value_bounds,
    lemma_value_prefix, lemma_value_split, lemma_value_window, lemma_value_zeros, limb_pow,
    limbs_ok, u4_array_div_u4_array, u4_array_mul_u4_array, value,
};
use crate::shift::arith_rightshift;
use vstd::arithmetic::div_mod::lemma_fundamental_div_mod_converse;
use vstd::arithmetic::power2::lemma2_to64;
use vstd::prelude::*;

verus! {

/// A 32-bit two's-complement integer in eight radix-16 limbs, least significant first.
#[derive(Clone, Copy)]
pub struct Int30 {
    parts: [i16; 8],
}

impl Int30 {
    /// Every limb lies in `[0, 15]`.
    pub closed spec fn wf(&self) -> bool {
        limbs_ok(self.parts@, 16)
    }

    /// The limbs read as an unsigned number.
    pub closed spec fn bits(&self) -> int {
        value(self.parts@, 16)
    }

    /// The two's-complement value: the sign is the top bit of the highest limb.
    pub closed spec fn val(&self) -> int {
        if self.parts[7] >= 8 {
            self.bits() - modulus()
        } else {
            self.bits()
        }
    }

    proof fn lemma_val(&self)
        requires
            self.wf(),
        ensures
            -0x8000_0000 <= self.val() < 0x8000_0000,
            0 <= self.bits() < modulus(),
            wrap32(self.val()) == self.val(),
            self.val() == wrap32(self.bits()),
            self.bits() == self.parts[0] + 0x10 * self.parts[1] + 0x100 * self.parts[2] + 0x1000
                * self.parts[3] + 0x1_0000 * self.parts[4] + 0x10_0000 * self.parts[5]
                + 0x100_0000 * self.parts[6] + 0x1000_0000 * self.parts[7],
    {
        lemma_value8(self.parts@);
        lemma_wrap_small(self.val());
        lemma_wrap_shift(self.val(), 1);
        assert(self.bits() == self.val() || self.bits() == self.val() + 1 * modulus());
    }

    /// Builds the value `i`, sign-extended into the upper limbs.
    pub fn from(i: i16) -> (r: Int30)
        ensures
            r.wf(),
            r.val() == i,
    {
        let h1 = arith_rightshift(i, 4);
        let h2 = arith_rightshift(h1, 4);
        let h3 = arith_rightshift(h2, 4);
        let smear: i16 = if i < 0 {
            0x0F
        } else {
            0
        };
        proof {
            lemma2_to64();
            assert((i & 0x0F) as int == (i as int) % 16) by (bit_vector);
            assert((h1 & 0x0F) as int == (h1 as int) % 16) by (bit_vector);
            assert((h2 & 0x0F) as int == (h2 as int) % 16) by (bit_vector);
            assert((h3 & 0x0F) as int == (h3 as int) % 16) by (bit_vector);
        }
        let r = Int30 { parts: [i & 0x0F, h1 & 0x0F, h2 & 0x0F, h3 & 0x0F, smear, smear, smear, smear] };
        proof {
            r.lemma_val();
        }
        r
    }

    /// The value as a host integer.
    pub fn to_i32(&self) -> (r: i32)
        requires
            self.wf(),
        ensures
            r == self.val(),
    {
        proof {
            self.lemma_val();
        }
        let p = &self.parts;
        let top: i32 = if p[7] >= 8 {
            p[7] as i32 - 16
        } else {
            p[7] as i32
        };
        top * 0x1000_0000 + (p[6] as i32) * 0x100_0000 + (p[5] as i32) * 0x10_0000 + (p[4] as i32)
            * 0x1_0000 + (p[3] as i32) * 0x1000 + (p[2] as i32) * 0x100 + (p[1] as i32) * 0x10
            + p[0] as i32
    }

    pub fn is_zero(&self) -> (r: bool)
        requires
            self.wf(),
        ensures
            r == (self.val() == 0),
    {
        proof {
            self.lemma_val();
        }
        let p = &self.parts;
        p[0] == 0 && p[1] == 0 && p[2] == 0 && p[3] == 0 && p[4] == 0 && p[5] == 0 && p[6] == 0
            && p[7] == 0
    }

    pub fn is_negative(&self) -> (r: bool)
        requires
            self.wf(),
        ensures
            r == (self.val() < 0),
    {
        proof {
            self.lemma_val();
        }
        self.parts[7] >= 8
    }

    /// Adds `other` limb by limb with carry, wrapping modulo 2^32.
    pub fn do_add(&mut self, other: &Int30)
        requires
            old(self).wf(),
            other.wf(),
        ensures
            final(self).wf(),
            final(self).val() == wrap32(old(self).val() + other.val()),
    {
        let ghost a = *self;
        let mut carry: i16 = 0;
        let mut i: usize = 0;
        proof {
            assert(self.parts@.subrange(0, 0).len() == 0);
            assert(a.parts@.subrange(0, 0).len() == 0);
            assert(other.parts@.subrange(0, 0).len() == 0);
        }
        while i < 8
            invariant
                0 <= i <= 8,
                0 <= carry <= 1,
                a.wf(),
                other.wf(),
                limbs_ok(self.parts@, 16),
                forall|t: int| i <= t < 8 ==> self.parts@[t] == a.parts@[t],
                value(self.parts@.subrange(0, i as int), 16) + carry * limb_pow(16, i as nat)
                    == value(a.parts@.subrange(0, i as int), 16) + value(
                    other.parts@.subrange(0, i as int),
                    16,
                ),
            decreases 8 - i,
        {
            let t = self.parts[i] + other.parts[i] + carry;
            let ghost before = self.parts@;
            let ghost c0 = carry as int;
            if t >= 16 {
                self.parts[i] = t - 16;
                carry = 1;
            } else {
                self.parts[i] = t;
                carry = 0;
            }
            proof {
                lemma_value_prefix(self.parts@, i as int, 16);
                lemma_value_prefix(a.parts@, i as int, 16);
                lemma_value_prefix(other.parts@, i as int, 16);
                assert(self.parts@.subrange(0, i as int) =~= before.subrange(0, i as int));
                let pw = limb_pow(16, i as nat);
                assert(limb_pow(16, (i + 1) as nat) == 16 * pw);
                let d = self.parts@[i as int];
                assert(t == d + 16 * carry);
                let ai = a.parts@[i as int] as int;
                let bi = other.parts@[i as int] as int;
                assert(d * pw + carry * (16 * pw) == ai * pw + bi * pw + c0 * pw) by (nonlinear_arith)
                    requires
                        t == d + 16 * carry,
                        t == ai + bi + c0,
                ;
            }
            i += 1;
        }
        proof {
            assert(self.parts@.subrange(0, 8) =~= self.parts@);
            assert(a.parts@.subrange(0, 8) =~= a.parts@);
            assert(other.parts@.subrange(0, 8) =~= other.parts@);
            reveal_with_fuel(limb_pow, 9);
            lemma_add_bits(*self, a, *other, carry as int);
        }
    }

    /// Negates in two's complement: complement every limb, then add one with carry.
    pub fn do_neg(&mut self)
        requires
            old(self).wf(),
        ensures
            final(self).wf(),
            final(self).val() == wrap32(-old(self).val()),
    {
        let ghost a = *self;
        proof {
            a.lemma_val();
            assert(forall|x: i16| 0 <= x < 16 ==> #[trigger] (!x & 0x0F) == 15 - x)
                by (bit_vector);
        }
        let mut carry: i16 = 1;
        let mut i: usize = 0;
        proof {
            assert(self.parts@.subrange(0, 0).len() == 0);
            assert(a.parts@.subrange(0, 0).len() == 0);
        }
        while i < 8
            invariant
                0 <= i <= 8,
                0 <= carry <= 1,
                a.wf(),
                limbs_ok(self.parts@, 16),
                forall|t: int| i <= t < 8 ==> self.parts@[t] == a.parts@[t],
                forall|x: i16| 0 <= x < 16 ==> #[trigger] (!x & 0x0F) == 15 - x,
                value(self.parts@.subrange(0, i as int), 16) + carry * limb_pow(16, i as nat)
                    == limb_pow(16, i as nat) - value(a.parts@.subrange(0, i as int), 16),
            decreases 8 - i,
        {
            let t = (!self.parts[i] & 0x0F) + carry;
            let ghost before = self.parts@;
            let ghost c0 = carry as int;
            if t >= 16 {
                self.parts[i] = t - 16;
                carry = 1;
            } else {
                self.parts[i] = t;
                carry = 0;
            }
            proof {
                lemma_value_prefix(self.parts@, i as int, 16);
                lemma_value_prefix(a.parts@, i as int, 16);
                assert(self.parts@.subrange(0, i as int) =~= before.subrange(0, i as int));
                let pw = limb_pow(16, i as nat);
                assert(limb_pow(16, (i + 1) as nat) == 16 * pw);
                let d = self.parts@[i as int];
                let ai = a.parts@[i as int] as int;
                assert(t == d + 16 * carry);
                assert(d * pw + carry * (16 * pw) == (15 - ai) * pw + c0 * pw) by (nonlinear_arith)
                    requires
                        t == d + 16 * carry,
                        t == 15 - ai + c0,
                ;
                assert((15 - ai) * pw == 16 * pw - pw - ai * pw) by (nonlinear_arith);
            }
            i += 1;
        }
        proof {
            assert(self.parts@.subrange(0, 8) =~= self.parts@);
            assert(a.parts@.subrange(0, 8) =~= a.parts@);
            reveal_with_fuel(limb_pow, 9);
            self.lemma_val();
            lemma_wrap_shift(-a.bits(), 1 - carry);
            lemma_wrap_shift(-a.val(), 0);
            lemma_wrap_neg(a.bits());
        }
    }

    /// Subtracts `other` by adding its negation, wrapping modulo 2^32.
    pub fn do_sub(&mut self, other: &Int30)
        requires
            old(self).wf(),
            other.wf(),
        ensures
            final(self).wf(),
            final(self).val() == wrap32(old(self).val() - other.val()),
    {
        let mut neg = *other;
        neg.do_neg();
        self.do_add(&neg);
        proof {
            lemma_wrap_add(-other.val(), old(self).val());
        }
    }

    /// Shifts right by whole bytes, truncating toward zero: the magnitude is shifted
    /// and the sign put back.
    pub fn do_right_shift_bytes(&mut self, bytes: usize)
        requires
            old(self).wf(),
            bytes <= 3,
        ensures
            final(self).wf(),
            final(self).val() == trunc_div(old(self).val(), byte_scale(bytes as int)),
    {
        let ghost a = *self;
        proof {
            a.lemma_val();
        }
        if bytes == 0 {
            assert(a.val() / 1 == a.val());
            return;
        }
        let is_neg = self.is_negative();
        if is_neg {
            self.do_neg();
        }
        proof {
            if is_neg {
                if a.val() != -0x8000_0000 {
                    lemma_wrap_small(-a.val());
                }
            }
            self.lemma_val();
        }
        let ghost m = *self;
        assert(m.bits() == abs_int(a.val()));
        proof {
            lemma_nibble_scale(bytes as int);
        }
        self.parts = nibbles_down(&self.parts, bytes * 2);
        proof {
            self.lemma_val();
            lemma_value_bounds(m.parts@, 16);
            lemma_div_lt(m.bits(), byte_scale(bytes as int), 0x100_0000);
        }
        if is_neg {
            self.do_neg();
            proof {
                lemma_wrap_small(-(abs_int(a.val()) / byte_scale(bytes as int)));
            }
        }
    }

    /// Shifts left by whole bytes, filling with zero limbs and wrapping modulo 2^32.
    pub fn do_left_shift_bytes(&mut self, bytes: usize)
        requires
            old(self).wf(),
            bytes <= 3,
        ensures
            final(self).wf(),
            final(self).val() == wrap32(old(self).val() * byte_scale(bytes as int)),
    {
        let ghost a = *self;
        proof {
            a.lemma_val();
        }
        if bytes == 0 {
            return;
        }
        let s2 = bytes * 2;
        let p = self.parts;
        self.parts = [
            0,
            0,
            if 2 >= s2 { p[2 - s2] } else { 0 },
            if 3 >= s2 { p[3 - s2] } else { 0 },
            if 4 >= s2 { p[4 - s2] } else { 0 },
            if 5 >= s2 { p[5 - s2] } else { 0 },
            p[6 - s2],
            p[7 - s2],
        ];
        proof {
            self.lemma_val();
            let d = byte_scale(bytes as int);
            let high: int = if bytes == 1 {
                p[6] + 0x10 * p[7]
            } else if bytes == 2 {
                p[4] + 0x10 * p[5] + 0x100 * p[6] + 0x1000 * p[7]
            } else {
                p[2] + 0x10 * p[3] + 0x100 * p[4] + 0x1000 * p[5] + 0x1_0000 * p[6] + 0x10_0000
                    * p[7]
            };
            assert(a.bits() * d == self.bits() + high * modulus());
            lemma_wrap_shift(self.bits(), high);
            let s: int = if p[7] >= 8 {
                1
            } else {
                0
            };
            assert(a.bits() == a.val() + s * modulus());
            assert(a.bits() * d == a.val() * d + (s * d) * modulus()) by (nonlinear_arith)
                requires
                    a.bits() == a.val() + s * modulus(),
            ;
            lemma_wrap_shift(a.val() * d, s * d);
        }
    }

    /// Multiplies by `other`.
    pub fn do_mul(&mut self, other: &Int30)
        requires
            old(self).wf(),
            other.wf(),
            fits32(mul_shift(old(self).val(), other.val(), 0)),
        ensures
            final(self).wf(),
            final(self).val() == mul_shift(old(self).val(), other.val(), 0),
    {
        self.do_mul_right_shift_bytes(other, 0);
    }

    /// Multiplies by `other` and shifts the product right by whole bytes. The magnitudes
    /// are multiplied limb by limb and the sign of the product put back; no limb of the
    /// shifted product may lie beyond the eight that are kept.
    pub fn do_mul_right_shift_bytes(&mut self, other: &Int30, right_shift_bytes: usize)
        requires
            old(self).wf(),
            other.wf(),
            right_shift_bytes <= 3,
            fits32(mul_shift(old(self).val(), other.val(), right_shift_bytes as int)),
        ensures
            final(self).wf(),
            final(self).val() == mul_shift(old(self).val(), other.val(), right_shift_bytes as int),
    {
        let ghost a = self.val();
        let ghost b = other.val();
        proof {
            self.lemma_val();
            other.lemma_val();
        }
        let is_result_neg = self.is_negative() ^ other.is_negative();
        proof {
            assert(abs_int(a) * abs_int(b) / byte_scale(right_shift_bytes as int) < modulus());
        }
        let u = magnitude(self);
        let v = magnitude(other);
        let result = u4_array_mul_u4_array(&u, &v);
        *self = take_nibbles(&result, right_shift_bytes);
        proof {
            self.lemma_val();
        }
        if is_result_neg {
            self.do_neg();
            proof {
                lemma_wrap_neg(self.bits());
            }
        }
        proof {
            let m = abs_int(a) * abs_int(b) / byte_scale(right_shift_bytes as int);
            if is_result_neg {
                lemma_wrap_small(-m);
            } else {
                lemma_wrap_small(m);
            }
        }
    }

    /// Divides by `other`, truncating toward zero.
    pub fn do_div(&mut self, other: &Int30)
        requires
            old(self).wf(),
            other.wf(),
            other.val() != 0,
            fits32(quot(old(self).val(), other.val())),
        ensures
            final(self).wf(),
            final(self).val() == quot(old(self).val(), other.val()),
    {
        proof {
            assert(old(self).val() * 1 == old(self).val());
        }
        self.do_left_shift_bytes_div(0, other);
    }

    /// Shifts the dividend left by whole bytes and divides it by `other`. The shifted
    /// magnitude is divided by the divisor's magnitude with long division on the
    /// radix-16 limbs, and the sign of the quotient put back.
    pub fn do_left_shift_bytes_div(&mut self, left_shift_bytes: usize, other: &Int30)
        requires
            old(self).wf(),
            other.wf(),
            left_shift_bytes <= 3,
            other.val() != 0,
            fits32(quot(old(self).val() * byte_scale(left_shift_bytes as int), other.val())),
        ensures
            final(self).wf(),
            final(self).val() == quot(
                old(self).val() * byte_scale(left_shift_bytes as int),
                other.val(),
            ),
    {
        let ghost a = self.val();
        let ghost b = other.val();
        proof {
            self.lemma_val();
            other.lemma_val();
        }
        let is_result_neg = self.is_negative() ^ other.is_negative();
        let self_magnitude = magnitude(self);
        let self_parts_expanded = widen_shifted(&self_magnitude, left_shift_bytes);
        let other_parts_expanded = magnitude(other);
        let mut divisor_size: usize = 8;
        while divisor_size > 0 && other_parts_expanded[divisor_size - 1] == 0
            invariant
                0 <= divisor_size <= 8,
                forall|t: int| divisor_size <= t < 8 ==> other_parts_expanded@[t] == 0,
            decreases divisor_size,
        {
            divisor_size -= 1;
        }
        proof {
            if divisor_size == 0 {
                lemma_value_zeros(other_parts_expanded@, 16);
            }
        }
        let result = u4_array_div_u4_array(
            &self_parts_expanded,
            &other_parts_expanded,
            divisor_size,
        );
        *self = low_nibbles(&result);
        proof {
            self.lemma_val();
            let s = byte_scale(left_shift_bytes as int);
            let m = abs_int(a) * s / abs_int(b);
            assert(abs_int(a * s) == abs_int(a) * s) by (nonlinear_arith)
                requires
                    s >= 1,
            ;
            assert((a * s < 0) == (a < 0)) by (nonlinear_arith)
                requires
                    s >= 1,
            ;
            lemma_wrap_mod(m);
        }
        if is_result_neg {
            self.do_neg();
            proof {
                lemma_wrap_neg(self.bits());
                lemma_wrap_neg(abs_int(a) * byte_scale(left_shift_bytes as int) / abs_int(b));
            }
        }
    }

    /// The first guess for the square root: 11 scaled by 16 for each byte above the
    /// lowest that holds a set bit.
    fn initial_sqrt_guess(&self) -> (r: Int30)
        requires
            self.wf(),
            self.val() >= 0,
        ensures
            r.wf(),
            r.val() == sqrt_seed(self.val()),
    {
        proof {
            self.lemma_val();
            lemma_wrap_small(45056);
            lemma_wrap_small(2816);
            lemma_wrap_small(176);
        }
        if self.parts[7] > 0 || self.parts[6] > 0 {
            let mut x = Int30::from(11);
            let y = Int30::from(4096);
            assert(x.val() == 11 && y.val() == 4096);
            assert(abs_int(x.val()) == 11 && abs_int(y.val()) == 4096);
            assert(abs_int(x.val()) * abs_int(y.val()) == 45056);
            x.do_mul(&y);
            assert(mul_shift(11, 4096, 0) == wrap32(45056));
            return x;
        }
        if self.parts[5] > 0 || self.parts[4] > 0 {
            let mut x = Int30::from(11);
            let y = Int30::from(256);
            assert(x.val() == 11 && y.val() == 256);
            assert(abs_int(x.val()) == 11 && abs_int(y.val()) == 256);
            assert(abs_int(x.val()) * abs_int(y.val()) == 2816);
            x.do_mul(&y);
            assert(mul_shift(11, 256, 0) == wrap32(2816));
            return x;
        }
        if self.parts[3] > 0 || self.parts[2] > 0 {
            let mut x = Int30::from(11);
            let y = Int30::from(16);
            assert(x.val() == 11 && y.val() == 16);
            assert(abs_int(x.val()) == 11 && abs_int(y.val()) == 16);
            assert(abs_int(x.val()) * abs_int(y.val()) == 176);
            x.do_mul(&y);
            assert(mul_shift(11, 16, 0) == wrap32(176));
            return x;
        }
        Int30::from(11)
    }

    /// Replaces a non-negative value by its square root by Newton-Raphson iteration from
    /// the seed guess: at most twenty steps, stopping once a step leaves the guess
    /// unchanged. Zero stays zero. The result is at least the integer square root.
    pub fn do_sqrt(&mut self)
        requires
            old(self).wf(),
            old(self).val() >= 0,
        ensures
            final(self).wf(),
            final(self).val() == if old(self).val() == 0 {
                0
            } else {
                newton_until_fixed(old(self).val(), sqrt_seed(old(self).val()), 20)
            },
            0 <= final(self).val() <= 46360,
            old(self).val() < (final(self).val() + 1) * (final(self).val() + 1),
            old(self).val() > 0 ==> (final(self).val() - 1) * (final(self).val() - 1) <= old(
                self,
            ).val(),
    {
        if self.is_zero() {
            return;
        }
        let ghost n = self.val();
        proof {
            self.lemma_val();
        }
        let ghost s = lemma_isqrt(n);
        proof {
            assert(s >= 1) by (nonlinear_arith)
                requires
                    n < (s + 1) * (s + 1),
                    n >= 1,
                    s >= 0,
            ;
        }
        let mut guess = self.initial_sqrt_guess();
        let mut i: usize = 0;
        let mut done = false;
        while i < 20 && !done
            invariant
                0 <= i <= 20,
                self.wf(),
                self.val() == n,
                1 <= n < 0x8000_0000,
                guess.wf(),
                guess_ok(n, guess.val()),
                1 <= guess.val() <= 46360,
                guess.val() == sqrt_seed(n) || n < (guess.val() + 1) * (guess.val() + 1),
                done ==> n < (guess.val() + 1) * (guess.val() + 1),
                i > 0 ==> n < (guess.val() + 1) * (guess.val() + 1),
                1 <= s,
                s * s <= n < (s + 1) * (s + 1),
                i > 0 && !done ==> s <= guess.val() <= s + newton_gap((i - 1) as nat),
                done ==> guess.val() * guess.val() <= n,
                done ==> newton_until_fixed(n, guess.val(), (20 - i) as nat) == guess.val(),
                newton_until_fixed(n, guess.val(), (20 - i) as nat) == newton_until_fixed(
                    n,
                    sqrt_seed(n),
                    20,
                ),
            decreases 20 - i + if done {
                0int
            } else {
                1int
            },
        {
            let ghost g = guess.val();
            proof {
                lemma_newton_step(n, g);
                lemma_newton_root(n, g);
                if g == sqrt_seed(n) {
                    lemma_seed_step(n);
                } else {
                    lemma_newton_bounded(n, g);
                }
                lemma_wrap_small(n / g);
                lemma_wrap_small(g + n / g);
                lemma_wrap_small((g + n / g) / 2);
            }
            let mut inv = *self;
            inv.do_div(&guess);
            let mut new_guess = guess;
            new_guess.do_add(&inv);
            new_guess.do_div(&Int30::from(2));
            proof {
                lemma_wrap_small(newton_step(n, g) - g);
                let h = newton_step(n, g);
                lemma_newton_gap(i as nat);
                if i == 0 {
                    lemma_newton_above(n, g, s);
                } else {
                    lemma_newton_gap((i - 1) as nat);
                    lemma_newton_halves(n, g, s);
                }
                if h == g {
                    lemma_newton_fixed(n, g);
                }
            }
            let mut diff = new_guess;
            diff.do_sub(&guess);
            if diff.is_zero() {
                done = true;
            } else {
                guess = new_guess;
                i += 1;
            }
        }
        proof {
            let g = guess.val();
            lemma_newton_gap(19);
            if done {
                assert((g - 1) * (g - 1) <= g * g) by (nonlinear_arith)
                    requires
                        g >= 1,
                ;
            } else {
                assert((g - 1) * (g - 1) <= s * s) by (nonlinear_arith)
                    requires
                        s <= g <= s + 1,
                        s >= 1,
                ;
            }
        }
        self.parts = guess.parts;
    }

    /// Replaces the value by its absolute value; the most negative value stays as it is.
    pub fn do_abs(&mut self)
        requires
            old(self).wf(),
        ensures
            final(self).wf(),
            final(self).val() == wrap32(abs_int(old(self).val())),
    {
        proof {
            old(self).lemma_val();
        }
        if self.is_negative() {
            self.do_neg();
        }
    }
}

/// The limbs of `p` shifted down by `s2` places, with zero limbs brought in at the top.
fn nibbles_down(p: &[i16; 8], s2: usize) -> (r: [i16; 8])
    requires
        limbs_ok(p@, 16),
        s2 <= 8,
    ensures
        limbs_ok(r@, 16),
        value(r@, 16) == value(p@, 16) / limb_pow(16, s2 as nat),
{
    let r = [
        nibble_at(p, s2),
        nibble_at(p, s2 + 1),
        nibble_at(p, s2 + 2),
        nibble_at(p, s2 + 3),
        nibble_at(p, s2 + 4),
        nibble_at(p, s2 + 5),
        nibble_at(p, s2 + 6),
        nibble_at(p, s2 + 7),
    ];
    proof {
        let n = 8 - s2;
        lemma_value_bounds(p@, 16);
        lemma_pow_adds(16, s2 as nat, n as nat);
        lemma_pow_pos(16, s2 as nat);
        let d = limb_pow(16, s2 as nat);
        let e = limb_pow(16, n as nat);
        assert(value(p@, 16) / d < e) by {
            lemma_div_lt(value(p@, 16), d, e);
        }
        lemma_value_window(p@, s2 as int, n as int);
        lemma_value_split(r@, n as int, 16);
        assert(r@.subrange(0, n as int) =~= p@.subrange(s2 as int, 8));
        lemma_value_zeros(r@.subrange(n as int, 8), 16);
    }
    r
}

/// The low 32 bits of sixteen radix-16 limbs, as eight limbs.
fn low_nibbles(w: &[i16; 16]) -> (r: Int30)
    requires
        limbs_ok(w@, 16),
    ensures
        r.wf(),
        r.bits() == value(w@, 16) % modulus(),
{
    let r = Int30 { parts: [w[0], w[1], w[2], w[3], w[4], w[5], w[6], w[7]] };
    proof {
        assert(r.parts@ =~= w@.subrange(0, 8));
        lemma_value_split(w@, 8, 16);
        assert(limbs_ok(w@.subrange(0, 8), 16));
        assert(limbs_ok(w@.subrange(8, 16), 16));
        lemma_value_bounds(w@.subrange(0, 8), 16);
        lemma_value_bounds(w@.subrange(8, 16), 16);
        lemma_nibble_scale(0);
        let lo = value(w@.subrange(0, 8), 16);
        let hi = value(w@.subrange(8, 16), 16);
        assert(value(w@, 16) == hi * modulus() + lo) by (nonlinear_arith)
            requires
                value(w@, 16) == lo + limb_pow(16, 8) * hi,
                limb_pow(16, 8) == modulus(),
        ;
        lemma_fundamental_div_mod_converse(value(w@, 16), modulus(), hi, lo);
    }
    r
}

/// The magnitude of `x` as eight radix-16 limbs.
fn magnitude(x: &Int30) -> (r: [i16; 8])
    requires
        x.wf(),
    ensures
        limbs_ok(r@, 16),
        value(r@, 16) == abs_int(x.val()),
{
    let mut m = *x;
    m.do_abs();
    proof {
        x.lemma_val();
        if x.val() != -0x8000_0000 {
            lemma_wrap_small(abs_int(x.val()));
        }
        m.lemma_val();
    }
    m.parts
}

/// Limb `i` of `p`, or zero past the top.
fn nibble_at(p: &[i16; 8], i: usize) -> (r: i16)
    ensures
        r == if i < 8 {
            p@[i as int]
        } else {
            0
        },
{
    if i < 8 {
        p[i]
    } else {
        0
    }
}

/// Eight limbs of the radix-16 vector `w`, starting `k` bytes up.
fn take_nibbles(w: &[i16; 16], k: usize) -> (r: Int30)
    requires
        limbs_ok(w@, 16),
        k <= 3,
        value(w@, 16) / byte_scale(k as int) < modulus(),
    ensures
        r.wf(),
        r.bits() == value(w@, 16) / byte_scale(k as int),
{
    let s2 = k * 2;
    proof {
        lemma_nibble_scale(k as int);
        lemma_value_window(w@, s2 as int, 8);
    }
    let r = Int30 {
        parts: [w[s2], w[s2 + 1], w[s2 + 2], w[s2 + 3], w[s2 + 4], w[s2 + 5], w[s2 + 6], w[s2 + 7]],
    };
    proof {
        assert(r.parts@ =~= w@.subrange(s2 as int, s2 + 8));
    }
    r
}

proof fn lemma_add_bits(r: Int30, a: Int30, b: Int30, c: int)
    requires
        r.wf(),
        a.wf(),
        b.wf(),
        r.bits() + c * modulus() == a.bits() + b.bits(),
    ensures
        r.val() == wrap32(a.val() + b.val()),
{
    a.lemma_val();
    b.lemma_val();
    r.lemma_val();
    lemma_wrap_shift(a.bits() + b.bits(), -c);
    lemma_wrap_add(a.bits(), b.bits());
    lemma_wrap_add(b.bits(), a.val());
    lemma_wrap_add(a.val(), b.val());
}

} // verus!
