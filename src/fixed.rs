//! A signed fixed-point number: an `Int32` holding the value times 2^16.
use crate::int32::{
    abs_int, byte_scale, fits32, lemma_wrap_small, modulus, mul_shift, newton_until_fixed, quot, sqrt_seed,
    trunc_div, wrap32, Int32,
};
use vstd::prelude::*;

verus! {

/// Number of whole limbs that hold the fraction.
pub const SLOTS_FOR_FRAC: usize = 2;

/// The scale factor, 256^SLOTS_FOR_FRAC.
pub const SCALE_FACTOR: i32 = 0x1_0000;

/// The square root of the scale factor.
pub const SCALE_FACTOR_SQRT: i16 = 256;

/// The fourth root of the scale factor.
pub const SCALE_FACTOR_SQRT_SQRT: i16 = 16;

/// The cube of the eighth root of the scale factor.
pub const SCALE_FACTOR_SQRT_SQRT_SQRT_POW_3: i16 = 64;

/// The scale factor as a mathematical integer.
pub open spec fn scale() -> int {
    0x1_0000
}

/// The fixed-point square root of a value scaled by 2^16: the integer square root of
/// the value times 16, times 64; or, where the value times 16 does not fit in 31 bits,
/// the integer square root of the value, times 256.
pub open spec fn fixed_sqrt(raw: int) -> int {
    if raw == 0 {
        0
    } else if 16 * raw < 0x8000_0000 {
        64 * newton_until_fixed(16 * raw, sqrt_seed(16 * raw), 20)
    } else {
        256 * newton_until_fixed(raw, sqrt_seed(raw), 20)
    }
}

/// A fixed-point number: the value times the scale factor, held in an `Int32`.
#[derive(Clone, Copy)]
pub struct Number(Int32);

impl Number {
    pub closed spec fn wf(&self) -> bool {
        self.0.wf()
    }

    /// The represented value times the scale factor.
    pub closed spec fn raw(&self) -> int {
        self.0.val()
    }

    pub proof fn lemma_raw(&self)
        requires
            self.wf(),
        ensures
            -0x8000_0000 <= self.raw() < 0x8000_0000,
    {
        self.0.lemma_val();
    }

    /// The number `i`.
    pub fn from(i: i16) -> (r: Number)
        ensures
            r.wf(),
            r.raw() == i * scale(),
    {
        let mut r = Int32::from(i);
        r.do_left_shift_bytes(SLOTS_FOR_FRAC);
        proof {
            lemma_wrap_small(i * scale());
        }
        Number(r)
    }

    /// The value of pi to within the fixed-point precision.
    pub fn pi() -> (r: Number)
        ensures
            r.wf(),
            r.raw() == 205887,
    {
        let mut x = Int32::from(561);
        let y = Int32::from(367);
        assert(abs_int(x.val()) == 561 && abs_int(y.val()) == 367);
        assert(abs_int(x.val()) * abs_int(y.val()) == 205887);
        x.do_mul(&y);
        proof {
            lemma_wrap_small(205887);
        }
        Number(x)
    }

    /// The integer part, truncated toward zero.
    pub fn to_int32(self) -> (r: Int32)
        requires
            self.wf(),
        ensures
            r.wf(),
            r.val() == trunc_div(self.raw(), scale()),
    {
        let mut x = self.0;
        x.do_right_shift_bytes(SLOTS_FOR_FRAC);
        x
    }

    /// The value times the scale factor, as a host integer.
    pub fn to_scaled_i32(&self) -> (r: i32)
        requires
            self.wf(),
        ensures
            r == self.raw(),
    {
        self.0.to_i32()
    }

    /// The number `i / 32768`, for `i` a fraction in 16-bit form.
    pub fn from_i16_frac(i: i16) -> (r: Number)
        ensures
            r.wf(),
            r.raw() == 2 * i,
    {
        let mut v = Int32::from(i);
        let two = Int32::from(2);
        let ghost a = v.val();
        assert(abs_int(two.val()) == 2);
        assert(abs_int(a) <= 32768);
        assert(abs_int(a) * 2 <= 65536);
        v.do_mul(&two);
        proof {
            lemma_wrap_small(2 * i);
            lemma_wrap_small(-(abs_int(a) * 2));
            lemma_wrap_small(abs_int(a) * 2);
            assert((abs_int(a) * 2) / byte_scale(0) == abs_int(a) * 2);
        }
        Number(v)
    }

    /// The fractional part in 16-bit form (times 32768), truncated toward zero and
    /// carrying the sign of the number.
    pub fn frac_to_i16(&self) -> (r: i16)
        requires
            self.wf(),
        ensures
            r == if self.raw() < 0 {
                -(((-self.raw()) % scale()) / 2)
            } else {
                (self.raw() % scale()) / 2
            },
    {
        let parts = self.0.parts;
        proof {
            self.0.lemma_val();
            let low = parts[0] + 0x100 * parts[1];
            let hi = parts[2] + 0x100 * parts[3];
            assert(self.0.bits() == hi * scale() + low);
            if self.raw() < 0 {
                if low == 0 {
                    vstd::arithmetic::div_mod::lemma_fundamental_div_mod_converse(
                        -self.raw(),
                        scale(),
                        scale() - hi,
                        0,
                    );
                } else {
                    vstd::arithmetic::div_mod::lemma_fundamental_div_mod_converse(
                        -self.raw(),
                        scale(),
                        scale() - hi - 1,
                        scale() - low,
                    );
                }
            } else {
                vstd::arithmetic::div_mod::lemma_fundamental_div_mod_converse(
                    self.raw(),
                    scale(),
                    hi,
                    low,
                );
            }
        }
        if self.is_negative() {
            if parts[0] == 0 && parts[1] == 0 {
                return 0;
            }
            -((255 - parts[1]) * 128 + (256 - parts[0]) / 2)
        } else {
            parts[1] * 128 + (parts[0] / 2)
        }
    }

    pub fn is_zero(&self) -> (r: bool)
        requires
            self.wf(),
        ensures
            r == (self.raw() == 0),
    {
        self.0.is_zero()
    }

    pub fn is_negative(&self) -> (r: bool)
        requires
            self.wf(),
        ensures
            r == (self.raw() < 0),
    {
        self.0.is_negative()
    }

    pub fn is_positive(&self) -> (r: bool)
        requires
            self.wf(),
        ensures
            r == (self.raw() > 0),
    {
        self.0.is_positive()
    }

    /// Adds `other`, wrapping modulo 2^32 in the scaled representation.
    pub fn do_add(&mut self, other: &Number)
        requires
            old(self).wf(),
            other.wf(),
        ensures
            final(self).wf(),
            final(self).raw() == wrap32(old(self).raw() + other.raw()),
    {
        self.0.do_add(&other.0);
    }

    /// Subtracts `other`, wrapping modulo 2^32 in the scaled representation.
    pub fn do_sub(&mut self, other: &Number)
        requires
            old(self).wf(),
            other.wf(),
        ensures
            final(self).wf(),
            final(self).raw() == wrap32(old(self).raw() - other.raw()),
    {
        self.0.do_sub(&other.0);
    }

    /// Multiplies by `other`: the scaled product shifted back down by the scale factor,
    /// truncated toward zero. A zero operand gives zero at once.
    pub fn do_mul(&mut self, other: &Number)
        requires
            old(self).wf(),
            other.wf(),
            fits32(mul_shift(old(self).raw(), other.raw(), 2)),
        ensures
            final(self).wf(),
            final(self).raw() == mul_shift(old(self).raw(), other.raw(), 2),
    {
        if self.is_zero() || other.is_zero() {
            proof {
                let x = abs_int(old(self).raw());
                let y = abs_int(other.raw());
                assert(x == 0 || y == 0);
                assert(x * y == 0) by (nonlinear_arith)
                    requires
                        x == 0 || y == 0,
                ;
                assert((x * y) / byte_scale(2) == 0);
                lemma_wrap_small(0);
            }
            self.0.do_zero();
            return;
        }
        self.0.do_mul_right_shift_bytes(&other.0, SLOTS_FOR_FRAC);
    }

    /// Divides by `other`: the dividend is shifted up by the scale factor first, and the
    /// quotient truncated toward zero. A zero dividend gives zero at once.
    pub fn do_div(&mut self, other: &Number)
        requires
            old(self).wf(),
            other.wf(),
            other.raw() != 0,
            fits32(quot(old(self).raw() * scale(), other.raw())),
        ensures
            final(self).wf(),
            final(self).raw() == quot(old(self).raw() * scale(), other.raw()),
    {
        if self.is_zero() && !other.is_zero() {
            proof {
                assert(abs_int(old(self).raw() * scale()) == 0);
                assert(0int / abs_int(other.raw()) == 0);
                lemma_wrap_small(0);
            }
            self.0.do_zero();
            return;
        }
        self.0.do_left_shift_bytes_div(SLOTS_FOR_FRAC, &other.0);
    }

    /// Replaces a non-negative number by its square root. The scaled value is multiplied
    /// by the fourth root of the scale factor, its integer square root taken, and the
    /// result multiplied by the cube of the eighth root of the scale factor; the result
    /// then lies within 64 scaled units (1/1024) of the true square root. A value too
    /// large for that first multiplication has its integer square root taken directly,
    /// multiplied by the square root of the scale factor, and lies within 256 scaled
    /// units (1/256) of the true square root.
    pub fn do_sqrt(&mut self)
        requires
            old(self).wf(),
            0 <= old(self).raw(),
        ensures
            final(self).wf(),
            final(self).raw() == fixed_sqrt(old(self).raw()),
            final(self).raw() >= 0,
            old(self).raw() > 0 ==> (final(self).raw() - 256) * (final(self).raw() - 256)
                <= scale() * old(self).raw() < (final(self).raw() + 256) * (final(self).raw()
                + 256),
            0 < old(self).raw() && 16 * old(self).raw() < 0x8000_0000 ==> (final(self).raw() - 64)
                * (final(self).raw() - 64) <= scale() * old(self).raw() < (final(self).raw() + 64)
                * (final(self).raw() + 64),
    {
        let ghost a = self.raw();
        proof {
            self.0.lemma_val();
        }
        if self.0.parts[3] >= 8 {
            self.0.do_sqrt();
            let g = Int32::from(SCALE_FACTOR_SQRT);
            let ghost r = self.0.val();
            proof {
                assert(0 <= r <= 46360);
                assert(abs_int(g.val()) == 256 && abs_int(r) == r);
                assert(r * 256 / byte_scale(0) == r * 256);
                assert(16 * a >= 0x8000_0000);
            }
            self.0.do_mul(&g);
            proof {
                assert((256 * r - 256) * (256 * r - 256) <= scale() * a) by (nonlinear_arith)
                    requires
                        (r - 1) * (r - 1) <= a,
                ;
                assert(scale() * a < (256 * r + 256) * (256 * r + 256)) by (nonlinear_arith)
                    requires
                        a < (r + 1) * (r + 1),
                ;
            }
            return;
        }
        let f = Int32::from(SCALE_FACTOR_SQRT_SQRT);
        proof {
            lemma_wrap_small(16 * a);
            assert(abs_int(f.val()) == 16);
            assert(abs_int(a) == a);
            assert(abs_int(self.0.val()) * abs_int(f.val()) == a * 16);
            assert(a * 16 / byte_scale(0) == a * 16);
        }
        self.0.do_mul(&f);
        self.0.do_sqrt();
        let g = Int32::from(SCALE_FACTOR_SQRT_SQRT_SQRT_POW_3);
        let ghost r = self.0.val();
        assert(abs_int(r) * abs_int(g.val()) < modulus());
        self.0.do_mul(&g);
        proof {
            lemma_wrap_small(r * 64);
            if a > 0 {
                let n = 16 * a;
                assert((64 * r - 64) * (64 * r - 64) <= scale() * a) by (nonlinear_arith)
                    requires
                        (r - 1) * (r - 1) <= n,
                        n == 16 * a,
                ;
                assert(scale() * a < (64 * r + 64) * (64 * r + 64)) by (nonlinear_arith)
                    requires
                        n < (r + 1) * (r + 1),
                        n == 16 * a,
                ;
                if r >= 4 {
                    assert((64 * r - 256) * (64 * r - 256) <= (64 * r - 64) * (64 * r - 64))
                        by (nonlinear_arith)
                        requires
                            r >= 4,
                    ;
                } else {
                    assert((64 * r - 256) * (64 * r - 256) <= 65536) by (nonlinear_arith)
                        requires
                            0 <= r < 4,
                    ;
                }
                assert(scale() * a < (64 * r + 256) * (64 * r + 256)) by (nonlinear_arith)
                    requires
                        scale() * a < (64 * r + 64) * (64 * r + 64),
                        r >= 0,
                ;
            }
        }
    }

    pub fn do_neg(&mut self)
        requires
            old(self).wf(),
        ensures
            final(self).wf(),
            final(self).raw() == wrap32(-old(self).raw()),
    {
        self.0.do_neg();
    }

    pub fn do_abs(&mut self)
        requires
            old(self).wf(),
        ensures
            final(self).wf(),
            final(self).raw() == wrap32(abs_int(old(self).raw())),
    {
        self.0.do_abs();
    }

    /// Three-way comparison: `-1`, `0` or `1` as `self` is below, equal to or above
    /// `other`.
    pub fn cmp(&self, other: &Number) -> (r: i16)
        requires
            self.wf(),
            other.wf(),
        ensures
            r == crate::int32::sign(self.raw() - other.raw()),
    {
        self.0.cmp(&other.0)
    }

    pub fn is_less_than(&self, other: &Number) -> (r: bool)
        requires
            self.wf(),
            other.wf(),
        ensures
            r == (self.raw() < other.raw()),
    {
        self.0.cmp(&other.0) < 0
    }
}

/// Adding a number and then subtracting it again gives back the first number, and so does
/// subtracting and then adding. Both operations wrap modulo 2^32 in the scaled
/// representation, so this holds for every pair of numbers.
pub proof fn law_add_sub_inverse(x: Number, y: Number)
    requires
        x.wf(),
        y.wf(),
    ensures
        wrap32(wrap32(x.raw() + y.raw()) - y.raw()) == x.raw(),
        wrap32(wrap32(x.raw() - y.raw()) + y.raw()) == x.raw(),
{
    x.lemma_raw();
    crate::int32::lemma_wrap_add(x.raw() + y.raw(), -y.raw());
    crate::int32::lemma_wrap_add(x.raw() - y.raw(), y.raw());
    lemma_wrap_small(x.raw());
}

/// Negating twice gives back the number itself, and a number and its negation have the same
/// absolute value.
pub proof fn law_neg_abs(x: Number)
    requires
        x.wf(),
    ensures
        wrap32(-wrap32(-x.raw())) == x.raw(),
        wrap32(abs_int(x.raw())) == wrap32(abs_int(wrap32(-x.raw()))),
{
    x.lemma_raw();
    crate::int32::lemma_wrap_neg(-x.raw());
    lemma_wrap_small(x.raw());
    if x.raw() != -0x8000_0000 {
        lemma_wrap_small(-x.raw());
    } else {
        crate::int32::lemma_wrap_shift(-x.raw(), -1);
    }
}

/// Comparison is a total order that agrees with the order of the values: every number
/// equals itself, swapping the operands reverses the result, the order is transitive,
/// and two numbers compare equal exactly when their values are equal.
pub proof fn law_compare_order(x: Number, y: Number, z: Number)
    requires
        x.wf(),
        y.wf(),
        z.wf(),
    ensures
        crate::int32::sign(x.raw() - x.raw()) == 0,
        crate::int32::sign(y.raw() - x.raw()) == -crate::int32::sign(x.raw() - y.raw()),
        crate::int32::sign(x.raw() - y.raw()) <= 0 && crate::int32::sign(y.raw() - z.raw()) <= 0
            ==> crate::int32::sign(x.raw() - z.raw()) <= 0,
        (crate::int32::sign(x.raw() - y.raw()) == 0) == (x.raw() == y.raw()),
        (crate::int32::sign(x.raw() - y.raw()) < 0) == (x.raw() < y.raw()),
{
}

/// A product that fits is the exact product of the two numbers to within one unit in
/// the last fractional place: scaled back up, it differs from the product of the scaled
/// operands by less than the scale factor.
pub proof fn law_mul_precision(x: Number, y: Number)
    requires
        x.wf(),
        y.wf(),
        abs_int(x.raw()) * abs_int(y.raw()) / scale() < 0x8000_0000,
    ensures
        abs_int(mul_shift(x.raw(), y.raw(), 2) * scale() - x.raw() * y.raw()) < scale(),
{
    let a = x.raw();
    let b = y.raw();
    let m = abs_int(a) * abs_int(b) / scale();
    lemma_wrap_small(m);
    lemma_wrap_small(-m);
    vstd::arithmetic::div_mod::lemma_fundamental_div_mod(abs_int(a) * abs_int(b), scale());
    vstd::arithmetic::div_mod::lemma_mod_bound(abs_int(a) * abs_int(b), scale());
    assert(abs_int(a) * abs_int(b) == abs_int(a * b)) by (nonlinear_arith);
    assert((a * b < 0) == ((a < 0) != (b < 0)) || a * b == 0) by (nonlinear_arith);
    if a * b == 0 {
        assert(abs_int(a) * abs_int(b) == 0);
        assert(m == 0);
    }
}

/// A quotient that fits is the exact quotient of the two numbers to within one unit in
/// the last fractional place: multiplied back by the divisor, it differs from the
/// scaled dividend by less than the divisor.
pub proof fn law_div_precision(x: Number, y: Number)
    requires
        x.wf(),
        y.wf(),
        y.raw() != 0,
        abs_int(x.raw()) * scale() / abs_int(y.raw()) < 0x8000_0000,
    ensures
        abs_int(quot(x.raw() * scale(), y.raw()) * y.raw() - x.raw() * scale()) < abs_int(
            y.raw(),
        ),
{
    let a = x.raw() * scale();
    let b = y.raw();
    let m = abs_int(a) / abs_int(b);
    assert(abs_int(a) == abs_int(x.raw()) * scale()) by {
        if x.raw() < 0 {
            assert(a < 0);
        } else {
            assert(a >= 0);
        }
    }
    lemma_wrap_small(m);
    lemma_wrap_small(-m);
    vstd::arithmetic::div_mod::lemma_fundamental_div_mod(abs_int(a), abs_int(b));
    vstd::arithmetic::div_mod::lemma_mod_bound(abs_int(a), abs_int(b));
    let r = abs_int(a) % abs_int(b);
    if (a < 0) != (b < 0) {
        assert(abs_int(-m * b - a) == r) by (nonlinear_arith)
            requires
                abs_int(a) == abs_int(b) * m + r,
                (a < 0) != (b < 0),
                0 <= r,
        ;
    } else {
        assert(abs_int(m * b - a) == r) by (nonlinear_arith)
            requires
                abs_int(a) == abs_int(b) * m + r,
                (a < 0) == (b < 0),
                0 <= r,
        ;
    }
}

} // verus!
