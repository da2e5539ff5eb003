//! Shift primitives for a host that has 16-bit signed integers and no native shifts.
use vstd::arithmetic::div_mod::{
    lemma_fundamental_div_mod, lemma_fundamental_div_mod_converse, lemma_mod_bound,
};
use vstd::arithmetic::power2::{lemma2_to64, lemma_pow2_pos, lemma_pow2_strictly_increases, lemma_pow2_unfold, pow2};
use vstd::prelude::*;

verus! {

/// Number of leading zero bits of `x` read as a 4-bit unsigned value.
pub open spec fn nlz4(x: int) -> int {
    if x >= 8 {
        0
    } else if x >= 4 {
        1
    } else if x >= 2 {
        2
    } else if x >= 1 {
        3
    } else {
        4
    }
}

proof fn lemma_floor_div_bounds(x: int, d: int)
    requires
        d > 0,
    ensures
        d * (x / d) <= x < d * (x / d) + d,
{
    lemma_fundamental_div_mod(x, d);
    lemma_mod_bound(x, d);
}

proof fn lemma_div_is_zero(x: int, d: int)
    requires
        d > 0,
        x >= 0,
    ensures
        (x / d == 0) <==> (x < d),
{
    lemma_floor_div_bounds(x, d);
    let q = x / d;
    assert(q == 0 ==> x < d) by (nonlinear_arith)
        requires
            d * q <= x < d * q + d,
    ;
    assert(x < d ==> q == 0) by (nonlinear_arith)
        requires
            d * q <= x < d * q + d,
            x >= 0,
            d > 0,
    ;
}

proof fn lemma_floor_half(x: int, c: int)
    requires
        c > 0,
    ensures
        (x / c) / 2 == x / (c * 2),
{
    let q = x / c;
    let r = x % c;
    lemma_fundamental_div_mod(x, c);
    lemma_mod_bound(x, c);
    let q2 = q / 2;
    let r2 = q % 2;
    lemma_fundamental_div_mod(q, 2);
    lemma_mod_bound(q, 2);
    assert(x == (c * 2) * q2 + (c * r2 + r)) by (nonlinear_arith)
        requires
            x == c * q + r,
            q == 2 * q2 + r2,
    ;
    assert(0 <= c * r2 + r < c * 2) by (nonlinear_arith)
        requires
            0 <= r2 < 2,
            0 <= r < c,
            c > 0,
    ;
    lemma_fundamental_div_mod_converse(x, c * 2, q2, c * r2 + r);
}

/// Two's-complement right shift of `x` by `n` bits, rounding toward negative infinity.
/// Positive values are divided by a power of two from a table for shifts up to eight
/// bits and then halved one bit position at a time, stopping once they reach 0.
/// Negative values are halved one bit position at a time; the loop stops as soon as
/// the value reaches -1, which further shifts leave unchanged.
pub fn arith_rightshift(x: i16, n: i16) -> (r: i16)
    requires
        0 <= n,
    ensures
        r as int == x as int / pow2(n as nat) as int,
{
    proof {
        lemma2_to64();
    }
    if x == 0 {
        proof {
            lemma_pow2_pos(n as nat);
            lemma_div_is_zero(0, pow2(n as nat) as int);
        }
        return 0;
    }
    if n == 0 {
        assert(x as int / 1 == x);
        return x;
    }
    if x > 0 {
        let powers: [i16; 9] = [1, 2, 4, 8, 16, 32, 64, 128, 256];
        if n <= 8 {
            return x / powers[n as usize];
        }
        let mut r: i16 = x / powers[8];
        let mut k: i16 = 8;
        while k < n
            invariant
                8 <= k <= n,
                x > 0,
                r >= 0,
                r as int == x as int / pow2(k as nat) as int,
            decreases n - k,
        {
            if r == 0 {
                proof {
                    lemma_pow2_pos(k as nat);
                    lemma_pow2_strictly_increases(k as nat, n as nat);
                    lemma_div_is_zero(x as int, pow2(k as nat) as int);
                    lemma_div_is_zero(x as int, pow2(n as nat) as int);
                }
                return 0;
            }
            r = r / 2;
            proof {
                lemma_pow2_unfold((k + 1) as nat);
                lemma_pow2_pos(k as nat);
                lemma_floor_half(x as int, pow2(k as nat) as int);
            }
            k = k + 1;
        }
        return r;
    }
    let mut r: i16 = x;
    let mut k: i16 = 0;
    assert(x as int / 1 == x);
    while k < n
        invariant
            0 <= k <= n,
            x < 0,
            r < 0,
            r as int == x as int / pow2(k as nat) as int,
        decreases n - k,
    {
        let divided = r / 2;
        let even = r & 1 == 0;
        assert((r & 1 == 0) <==> (r % 2 == 0)) by (bit_vector);
        r = if even {
            divided
        } else {
            divided - 1
        };
        proof {
            lemma_pow2_unfold((k + 1) as nat);
            lemma_pow2_pos(k as nat);
            lemma_floor_half(x as int, pow2(k as nat) as int);
        }
        k = k + 1;
        assert(r as int == x as int / pow2(k as nat) as int);
        if r == -1 {
            proof {
                let d = pow2(n as nat) as int;
                if k < n {
                    lemma_pow2_strictly_increases(k as nat, n as nat);
                }
                lemma_pow2_pos(k as nat);
                lemma_floor_div_bounds(x as int, pow2(k as nat) as int);
                assert(-pow2(k as nat) <= x);
                assert(pow2(k as nat) <= d);
                lemma_fundamental_div_mod_converse(x as int, d, -1, x + d);
            }
            return r;
        }
    }
    r
}

/// Left shift of `x` by `n` bits, by doubling `n` times.
pub fn leftshift(x: i16, n: i16) -> (r: i16)
    requires
        0 <= n <= 15,
        i16::MIN <= x * pow2(n as nat) <= i16::MAX,
    ensures
        r as int == x * pow2(n as nat),
{
    let mut r: i16 = x;
    let mut k: i16 = 0;
    proof {
        lemma2_to64();
        assert(x * pow2(0) == x);
    }
    while k < n
        invariant
            0 <= k <= n <= 15,
            i16::MIN <= x * pow2(n as nat) <= i16::MAX,
            r as int == x * pow2(k as nat),
        decreases n - k,
    {
        proof {
            lemma_pow2_unfold((k + 1) as nat);
            if k + 1 < n {
                lemma_pow2_strictly_increases((k + 1) as nat, n as nat);
            }
            lemma_pow2_pos((k + 1) as nat);
            let p = pow2((k + 1) as nat) as int;
            let q = pow2(n as nat) as int;
            assert(x * p <= x * q || x < 0) by (nonlinear_arith)
                requires p <= q;
            assert(x * p >= x * q || x >= 0) by (nonlinear_arith)
                requires p <= q;
            assert(x * p == 2 * (x * pow2(k as nat))) by (nonlinear_arith)
                requires p == 2 * pow2(k as nat);
            assert(x >= 0 ==> 0 <= x * p) by (nonlinear_arith)
                requires p > 0;
            assert(x < 0 ==> x * p < 0) by (nonlinear_arith)
                requires p > 0;
        }
        r = r * 2;
        k = k + 1;
    }
    r
}

/// Number of leading zeros of `x`, read as a 4-bit unsigned value.
pub fn nlz_u4(x: i16) -> (r: i16)
    requires
        0 <= x < 16,
    ensures
        r as int == nlz4(x as int),
{
    proof {
        lemma2_to64();
    }
    let mut r: i16 = 0;
    let mut shift: i16 = 3;
    while shift >= 0
        invariant
            -1 <= shift <= 3,
            0 <= x < 16,
            r == 3 - shift,
            x < pow2((shift + 1) as nat),
        decreases shift + 1,
    {
        proof {
            lemma2_to64();
        }
        let shifted = arith_rightshift(x, shift);
        proof {
            lemma_div_is_zero(x as int, pow2(shift as nat) as int);
        }
        if shifted == 0 {
            assert(x < pow2(shift as nat));
            r += 1;
            shift -= 1;
        } else {
            return r;
        }
    }
    r
}

} // verus!
