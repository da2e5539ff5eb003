//! Limb vectors: little-endian sequences of small non-negative integers in a fixed radix,
//! and the schoolbook multiplication and long division that operate on them.
use crate::shift::{arith_rightshift, leftshift, nlz4, nlz_u4};
use vstd::arithmetic::div_mod::{
    lemma_fundamental_div_mod, lemma_fundamental_div_mod_converse, lemma_mod_bound,
};
use vstd::arithmetic::power2::{lemma2_to64, lemma_pow2_pos, pow2};
use vstd::prelude::*;

verus! {

/// `b` raised to the `n`th power.
pub open spec fn limb_pow(b: int, n: nat) -> int
    decreases n,
{
    if n == 0 {
        1
    } else {
        b * limb_pow(b, (n - 1) as nat)
    }
}

/// The unsigned value of little-endian limbs `s` in radix `b`.
pub open spec fn value(s: Seq<i16>, b: int) -> int
    decreases s.len(),
{
    if s.len() == 0 {
        0
    } else {
        value(s.drop_last(), b) + s.last() * limb_pow(b, (s.len() - 1) as nat)
    }
}

/// Every limb of `s` lies in `[0, b)`.
pub open spec fn limbs_ok(s: Seq<i16>, b: int) -> bool {
    forall|i: int| 0 <= i < s.len() ==> 0 <= #[trigger] s[i] < b
}

pub proof fn lemma_pow_pos(b: int, n: nat)
    requires
        b > 0,
    ensures
        limb_pow(b, n) > 0,
    decreases n,
{
    if n > 0 {
        lemma_pow_pos(b, (n - 1) as nat);
        assert(b * limb_pow(b, (n - 1) as nat) > 0) by (nonlinear_arith)
            requires
                b > 0,
                limb_pow(b, (n - 1) as nat) > 0,
        ;
    }
}

pub proof fn lemma_pow_adds(b: int, m: nat, n: nat)
    ensures
        limb_pow(b, m + n) == limb_pow(b, m) * limb_pow(b, n),
    decreases n,
{
    if n > 0 {
        lemma_pow_adds(b, m, (n - 1) as nat);
        assert(limb_pow(b, m + n) == b * limb_pow(b, (m + n - 1) as nat));
        assert(b * (limb_pow(b, m) * limb_pow(b, (n - 1) as nat)) == limb_pow(b, m) * (b
            * limb_pow(b, (n - 1) as nat))) by (nonlinear_arith);
    }
}

/// Appending one limb adds it at its place value.
pub proof fn lemma_value_push(s: Seq<i16>, x: i16, b: int)
    ensures
        value(s.push(x), b) == value(s, b) + x * limb_pow(b, s.len()),
{
    assert(s.push(x).drop_last() =~= s);
}

/// The value of a prefix one limb longer.
pub proof fn lemma_value_prefix(s: Seq<i16>, i: int, b: int)
    requires
        0 <= i < s.len(),
    ensures
        value(s.subrange(0, i + 1), b) == value(s.subrange(0, i), b) + s[i] * limb_pow(
            b,
            i as nat,
        ),
{
    assert(s.subrange(0, i + 1).drop_last() =~= s.subrange(0, i));
}

/// Replacing one limb changes the value by the difference at that limb's place.
pub proof fn lemma_value_update(s: Seq<i16>, p: int, x: i16, b: int)
    requires
        0 <= p < s.len(),
    ensures
        value(s.update(p, x), b) == value(s, b) + (x - s[p]) * limb_pow(b, p as nat),
    decreases s.len(),
{
    if p == s.len() - 1 {
        assert(s.update(p, x).drop_last() =~= s.drop_last());
        assert(x * limb_pow(b, p as nat) - s[p] * limb_pow(b, p as nat) == (x - s[p]) * limb_pow(
            b,
            p as nat,
        )) by (nonlinear_arith);
    } else {
        lemma_value_update(s.drop_last(), p, x, b);
        assert(s.update(p, x).drop_last() =~= s.drop_last().update(p, x));
    }
}

/// The value splits into a low part and a high part at limb `k`.
pub proof fn lemma_value_split(s: Seq<i16>, k: int, b: int)
    requires
        0 <= k <= s.len(),
    ensures
        value(s, b) == value(s.subrange(0, k), b) + limb_pow(b, k as nat) * value(
            s.subrange(k, s.len() as int),
            b,
        ),
    decreases s.len(),
{
    if s.len() == k {
        assert(s.subrange(0, k) =~= s);
        assert(value(s.subrange(k, s.len() as int), b) == 0);
    } else {
        let n = s.len() - 1;
        lemma_value_split(s.drop_last(), k, b);
        assert(s.drop_last().subrange(0, k) =~= s.subrange(0, k));
        let hi = s.subrange(k, s.len() as int);
        assert(hi.drop_last() =~= s.drop_last().subrange(k, n));
        assert(hi.last() == s.last());
        lemma_pow_adds(b, k as nat, (n - k) as nat);
        let h0 = value(hi.drop_last(), b);
        let pk = limb_pow(b, k as nat);
        let pj = limb_pow(b, (n - k) as nat);
        assert(pk * (h0 + s.last() * pj) == pk * h0 + s.last() * (pk * pj)) by (nonlinear_arith);
    }
}

/// Limbs in `[0, b)` have a value in `[0, b^len)`.
pub proof fn lemma_value_bounds(s: Seq<i16>, b: int)
    requires
        b > 1,
        limbs_ok(s, b),
    ensures
        0 <= value(s, b) < limb_pow(b, s.len()),
    decreases s.len(),
{
    if s.len() > 0 {
        let n = (s.len() - 1) as nat;
        lemma_value_bounds(s.drop_last(), b);
        lemma_pow_pos(b, n);
        let v = value(s.drop_last(), b);
        let p = limb_pow(b, n);
        let d = s.last() as int;
        assert(0 <= d < b);
        assert(0 <= v + d * p < b * p) by (nonlinear_arith)
            requires
                0 <= v < p,
                0 <= d < b,
                p > 0,
        ;
    }
}

/// All limbs zero: value zero.
pub proof fn lemma_value_zeros(s: Seq<i16>, b: int)
    requires
        forall|i: int| 0 <= i < s.len() ==> s[i] == 0,
    ensures
        value(s, b) == 0,
    decreases s.len(),
{
    if s.len() > 0 {
        lemma_value_zeros(s.drop_last(), b);
    }
}

/// Eight radix-16 limbs written out.
pub proof fn lemma_value8(s: Seq<i16>)
    requires
        s.len() == 8,
    ensures
        value(s, 16) == s[0] + 0x10 * s[1] + 0x100 * s[2] + 0x1000 * s[3] + 0x1_0000 * s[4]
            + 0x10_0000 * s[5] + 0x100_0000 * s[6] + 0x1000_0000 * s[7],
{
    reveal_with_fuel(limb_pow, 8);
    assert(limb_pow(16, 1) == 0x10);
    assert(limb_pow(16, 2) == 0x100);
    assert(limb_pow(16, 3) == 0x1000);
    assert(limb_pow(16, 4) == 0x1_0000);
    assert(limb_pow(16, 5) == 0x10_0000);
    assert(limb_pow(16, 6) == 0x100_0000);
    assert(limb_pow(16, 7) == 0x1000_0000);
    assert(value(s.subrange(0, 0), 16) == 0);
    lemma_value_prefix(s, 0, 16);
    lemma_value_prefix(s, 1, 16);
    lemma_value_prefix(s, 2, 16);
    lemma_value_prefix(s, 3, 16);
    lemma_value_prefix(s, 4, 16);
    lemma_value_prefix(s, 5, 16);
    lemma_value_prefix(s, 6, 16);
    lemma_value_prefix(s, 7, 16);
    assert(s.subrange(0, 8) =~= s);
}

/// A window of `n` limbs starting at `lo` holds the value shifted down by `lo` limbs,
/// provided nothing above the window is set.
pub proof fn lemma_value_window(s: Seq<i16>, lo: int, n: int)
    requires
        limbs_ok(s, 16),
        0 <= lo,
        0 <= n,
        lo + n <= s.len(),
        value(s, 16) / limb_pow(16, lo as nat) < limb_pow(16, n as nat),
    ensures
        value(s.subrange(lo, lo + n), 16) == value(s, 16) / limb_pow(16, lo as nat),
{
    let p = limb_pow(16, lo as nat);
    let q = limb_pow(16, n as nat);
    lemma_pow_pos(16, lo as nat);
    lemma_pow_pos(16, n as nat);
    lemma_value_split(s, lo, 16);
    let low = s.subrange(0, lo);
    let t = s.subrange(lo, s.len() as int);
    assert(limbs_ok(low, 16));
    assert(limbs_ok(t, 16));
    lemma_value_bounds(low, 16);
    assert(value(s, 16) == value(t, 16) * p + value(low, 16)) by (nonlinear_arith)
        requires
            value(s, 16) == value(low, 16) + p * value(t, 16),
    ;
    lemma_fundamental_div_mod_converse(value(s, 16), p, value(t, 16), value(low, 16));
    lemma_value_split(t, n, 16);
    assert(t.subrange(0, n) =~= s.subrange(lo, lo + n));
    let mid = t.subrange(0, n);
    let top = t.subrange(n, t.len() as int);
    assert(limbs_ok(mid, 16));
    assert(limbs_ok(top, 16));
    lemma_value_bounds(mid, 16);
    lemma_value_bounds(top, 16);
    let h = value(top, 16);
    assert(h == 0) by (nonlinear_arith)
        requires
            value(t, 16) == value(mid, 16) + q * h,
            value(t, 16) < q,
            value(mid, 16) >= 0,
            h >= 0,
            q > 0,
    ;
    assert(q * h == 0) by (nonlinear_arith)
        requires
            h == 0,
    ;
}

/// A suffix is its first limb plus the radix times the rest.
pub proof fn lemma_value_suffix(s: Seq<i16>, j: int, b: int)
    requires
        0 <= j < s.len(),
    ensures
        value(s.subrange(j, s.len() as int), b) == s[j] + b * value(
            s.subrange(j + 1, s.len() as int),
            b,
        ),
{
    let t = s.subrange(j, s.len() as int);
    lemma_value_split(t, 1, b);
    lemma_value_prefix(t, 0, b);
    assert(t.subrange(0, 0).len() == 0);
    assert(t.subrange(1, t.len() as int) =~= s.subrange(j + 1, s.len() as int));
    assert(limb_pow(b, 1) == b * limb_pow(b, 0));
}

/// The value with its top three limbs written out.
pub proof fn lemma_value_top3(s: Seq<i16>)
    requires
        s.len() >= 3,
    ensures
        value(s, 16) == value(s.subrange(0, s.len() - 3), 16) + limb_pow(16, (s.len() - 3) as nat)
            * (s[s.len() - 3] + 16 * s[s.len() - 2] + 256 * s[s.len() - 1]),
{
    let n = s.len() - 3;
    lemma_value_prefix(s, n, 16);
    lemma_value_prefix(s, n + 1, 16);
    lemma_value_prefix(s, n + 2, 16);
    assert(s.subrange(0, n + 3) =~= s);
    let p = limb_pow(16, n as nat);
    assert(limb_pow(16, (n + 1) as nat) == 16 * p);
    assert(limb_pow(16, (n + 2) as nat) == 16 * (16 * p));
    assert(s[n] * p + s[n + 1] * (16 * p) + s[n + 2] * (16 * (16 * p)) == p * (s[n] + 16 * s[n
        + 1] + 256 * s[n + 2])) by (nonlinear_arith);
}

/// The value with its top two limbs written out.
pub proof fn lemma_value_top2(s: Seq<i16>)
    requires
        s.len() >= 2,
    ensures
        value(s, 16) == value(s.subrange(0, s.len() - 2), 16) + limb_pow(16, (s.len() - 2) as nat)
            * (s[s.len() - 2] + 16 * s[s.len() - 1]),
{
    let n = s.len() - 2;
    lemma_value_prefix(s, n, 16);
    lemma_value_prefix(s, n + 1, 16);
    assert(s.subrange(0, n + 2) =~= s);
    let p = limb_pow(16, n as nat);
    assert(limb_pow(16, (n + 1) as nat) == 16 * p);
    assert(s[n] * p + s[n + 1] * (16 * p) == p * (s[n] + 16 * s[n + 1])) by (nonlinear_arith);
}

/// Limb `i` of `s` shifted left by `sh` bits, with the bits shifted out of limb `i - 1`.
pub open spec fn shl_digit(s: Seq<i16>, i: int, sh: nat) -> int {
    (s[i] as int * pow2(sh)) % 16 + if i > 0 {
        (s[i - 1] as int) / (pow2((4 - sh) as nat) as int)
    } else {
        0
    }
}

/// Shifting limbs left by `sh` bits multiplies the value by `2^sh`; what leaves the top
/// limb is returned separately.
pub proof fn lemma_shl_value(s: Seq<i16>, out: Seq<i16>, n: int, sh: nat)
    requires
        sh <= 3,
        0 <= n <= s.len(),
        n <= out.len(),
        limbs_ok(s, 16),
        forall|i: int| 0 <= i < n ==> out[i] == shl_digit(s, i, sh),
    ensures
        value(out.subrange(0, n), 16) + (if n > 0 {
            (s[n - 1] as int) / (pow2((4 - sh) as nat) as int)
        } else {
            0
        }) * limb_pow(16, n as nat) == value(s.subrange(0, n), 16) * pow2(sh),
    decreases n,
{
    lemma2_to64();
    if n > 0 {
        let m = n - 1;
        lemma_shl_value(s, out, m, sh);
        lemma_value_prefix(out, m, 16);
        lemma_value_prefix(s, m, 16);
        let p = limb_pow(16, m as nat);
        assert(limb_pow(16, n as nat) == 16 * p);
        let a = s[m] as int;
        let e = pow2(sh) as int;
        let f = pow2((4 - sh) as nat) as int;
        assert(e * f == 16) by {
            assert(sh == 0 || sh == 1 || sh == 2 || sh == 3);
            if sh == 0 {
                assert(e == 1 && f == 16);
            } else if sh == 1 {
                assert(e == 2 && f == 8);
            } else if sh == 2 {
                assert(e == 4 && f == 4);
            } else {
                assert(e == 8 && f == 2);
            }
        }
        let lo = (a * e) % 16;
        let hi = a / f;
        assert(0 <= a < 16);
        assert(e > 0 && f > 0);
        lemma_fundamental_div_mod(a, f);
        lemma_mod_bound(a, f);
        let r1 = a % f;
        assert(a * e == 16 * hi + e * r1) by (nonlinear_arith)
            requires
                a == f * hi + r1,
                e * f == 16,
        ;
        assert(0 <= e * r1 < 16) by (nonlinear_arith)
            requires
                0 <= r1 < f,
                e * f == 16,
                e > 0,
        ;
        lemma_fundamental_div_mod_converse(a * e, 16, hi, e * r1);
        let carry_in: int = if m > 0 {
            (s[m - 1] as int) / f
        } else {
            0
        };
        let vs = value(s.subrange(0, m), 16);
        let vo = value(out.subrange(0, m), 16);
        assert(out[m] == lo + carry_in);
        assert(vo + carry_in * p == vs * e);
        assert(vo + (lo + carry_in) * p + hi * (16 * p) == (vs + a * p) * e) by (nonlinear_arith)
            requires
                vo + carry_in * p == vs * e,
                a * e == 16 * hi + lo,
        ;
    }
}

/// `x < d * e` bounds the quotient `x / d` by `e`.
pub proof fn lemma_div_lt(x: int, d: int, e: int)
    requires
        0 <= x < d * e,
        d > 0,
    ensures
        x / d < e,
{
    lemma_fundamental_div_mod(x, d);
    lemma_mod_bound(x, d);
    let q = x / d;
    assert(q < e) by (nonlinear_arith)
        requires
            x == d * q + x % d,
            0 <= x % d,
            x < d * e,
            d > 0,
    ;
}

/// `x < (q + 1) * d` bounds the quotient `x / d` by `q`.
proof fn lemma_quotient_at_most(x: int, d: int, q: int)
    requires
        0 <= x < (q + 1) * d,
        d > 0,
    ensures
        x / d <= q,
{
    assert((q + 1) * d == d * (q + 1)) by (nonlinear_arith);
    lemma_div_lt(x, d, q + 1);
}

/// The trial digit of long division, taken from the top two limbs of the window `w`
/// and the top limb `v1` of the normalized divisor `v`, is never too small, and the top
/// two limbs of the window stay below `(v1 + 1) * 16`.
proof fn lemma_trial_start(
    w: int,
    v: int,
    t: int,
    u2: int,
    wl: int,
    v1: int,
    v2: int,
    vl: int,
    p: int,
)
    requires
        p >= 1,
        0 <= wl < p,
        0 <= vl < p,
        0 <= u2 < 16,
        0 <= v2 < 16,
        8 <= v1 < 16,
        t >= 0,
        w == (t * 16 + u2) * p + wl,
        v == (v1 * 16 + v2) * p + vl,
        w < v * 16,
    ensures
        v > 0,
        t < (v1 + 1) * 16,
        w / v < 16,
        w / v <= t / v1,
        t / v1 <= 17,
{
    assert(v >= 128 * p) by (nonlinear_arith)
        requires
            v == (v1 * 16 + v2) * p + vl,
            8 <= v1,
            v2 >= 0,
            vl >= 0,
            p >= 1,
    ;
    assert(t < (v1 + 1) * 16) by (nonlinear_arith)
        requires
            w == (t * 16 + u2) * p + wl,
            v == (v1 * 16 + v2) * p + vl,
            w < v * 16,
            0 <= wl < p,
            0 <= vl < p,
            0 <= u2,
            v2 < 16,
            p >= 1,
    ;
    assert(w >= 0) by (nonlinear_arith)
        requires
            w == (t * 16 + u2) * p + wl,
            t >= 0,
            u2 >= 0,
            wl >= 0,
            p >= 1,
    ;
    assert(v * 16 == 16 * v);
    lemma_div_lt(w, v, 16);
    lemma_fundamental_div_mod(t, v1);
    lemma_mod_bound(t, v1);
    let qh = t / v1;
    assert(w < (qh + 1) * v) by (nonlinear_arith)
        requires
            t == v1 * qh + t % v1,
            0 <= t % v1 < v1,
            w == (t * 16 + u2) * p + wl,
            v == (v1 * 16 + v2) * p + vl,
            0 <= wl < p,
            0 <= vl,
            0 <= v2,
            0 <= u2 < 16,
            p >= 1,
            qh >= 0,
    ;
    lemma_quotient_at_most(w, v, qh);
    assert(t < v1 * 18) by (nonlinear_arith)
        requires
            t < (v1 + 1) * 16,
            v1 >= 8,
    ;
    lemma_div_lt(t, v1, 18);
}

/// When the trial digit times the second divisor limb overshoots the remainder of the
/// top-limb division, the trial digit is too large.
proof fn lemma_trial_decrease(
    w: int,
    v: int,
    t: int,
    u2: int,
    wl: int,
    v1: int,
    v2: int,
    vl: int,
    p: int,
    qh: int,
    rh: int,
)
    requires
        p >= 1,
        0 <= wl < p,
        0 <= vl < p,
        0 <= u2 < 16,
        0 <= v2 < 16,
        8 <= v1 < 16,
        w == (t * 16 + u2) * p + wl,
        v == (v1 * 16 + v2) * p + vl,
        v > 0,
        w >= 0,
        qh >= 1,
        rh == t - qh * v1,
        qh * v2 > 16 * rh + u2,
    ensures
        w / v <= qh - 1,
{
    assert(w < qh * v) by (nonlinear_arith)
        requires
            w == (t * 16 + u2) * p + wl,
            v == (v1 * 16 + v2) * p + vl,
            rh == t - qh * v1,
            qh * v2 >= 16 * rh + u2 + 1,
            0 <= wl < p,
            0 <= vl,
            qh >= 1,
            p >= 1,
    ;
    lemma_quotient_at_most(w, v, qh - 1);
}

/// Once the second divisor limb no longer shows an overshoot, the trial digit is at
/// most one too large.
proof fn lemma_trial_exact(
    w: int,
    v: int,
    t: int,
    u2: int,
    wl: int,
    v1: int,
    v2: int,
    vl: int,
    p: int,
    qh: int,
    rh: int,
)
    requires
        p >= 1,
        0 <= wl < p,
        0 <= vl < p,
        0 <= u2 < 16,
        0 <= v2 < 16,
        8 <= v1 < 16,
        w == (t * 16 + u2) * p + wl,
        v == (v1 * 16 + v2) * p + vl,
        v > 0,
        w >= 0,
        w / v <= qh,
        qh < 16,
        rh == t - qh * v1,
        qh * v2 <= 16 * rh + u2,
    ensures
        qh <= w / v + 1,
{
    let qt = w / v;
    let top2 = v1 * 16 + v2;
    lemma_fundamental_div_mod(w, v);
    lemma_mod_bound(w, v);
    assert(qt >= 0) by (nonlinear_arith)
        requires
            w == v * qt + w % v,
            0 <= w % v < v,
            w >= 0,
    ;
    if qh >= qt + 2 {
        assert(qh * top2 * p <= w) by (nonlinear_arith)
            requires
                w == (t * 16 + u2) * p + wl,
                wl >= 0,
                top2 == v1 * 16 + v2,
                rh == t - qh * v1,
                qh * v2 <= 16 * rh + u2,
                p >= 1,
        ;
        assert(w < (qh - 1) * (top2 + 1) * p) by (nonlinear_arith)
            requires
                w == v * qt + w % v,
                w % v < v,
                v == top2 * p + vl,
                vl < p,
                qt + 1 <= qh - 1,
                qt >= 0,
                p >= 1,
        ;
        assert(false) by (nonlinear_arith)
            requires
                qh * top2 * p <= w,
                w < (qh - 1) * (top2 + 1) * p,
                p >= 1,
                top2 >= 128,
                qh < 16,
        ;
    }
}

/// A non-negative 16-bit value split into its low four bits and the rest.
pub proof fn lemma_nibble_split(t: i16)
    requires
        0 <= t,
    ensures
        t & 0x0F == t % 16,
        0 <= t & 0x0F < 16,
{
    assert(t & 0x0F == t % 16) by (bit_vector)
        requires
            0 <= t,
    ;
}

/// Schoolbook product of two 8-limb radix-16 vectors. Every partial product fits in
/// a 16-bit signed integer, and the 16-limb result holds the exact product.
pub fn u4_array_mul_u4_array(u: &[i16; 8], v: &[i16; 8]) -> (w: [i16; 16])
    requires
        limbs_ok(u@, 16),
        limbs_ok(v@, 16),
    ensures
        limbs_ok(w@, 16),
        value(w@, 16) == value(u@, 16) * value(v@, 16),
{
    let mut w = [0i16; 16];
    proof {
        lemma_value_zeros(w@.subrange(0, 8), 16);
        assert(v@.subrange(0, 0).len() == 0);
    }
    let mut j: usize = 0;
    while j < 8
        invariant
            0 <= j <= 8,
            limbs_ok(u@, 16),
            limbs_ok(v@, 16),
            limbs_ok(w@, 16),
            forall|t: int| j + 8 <= t < 16 ==> w@[t] == 0,
            value(w@.subrange(0, j + 8), 16) == value(u@, 16) * value(v@.subrange(0, j as int), 16),
        decreases 8 - j,
    {
        let mut k: i16 = 0;
        let vj = v[j];
        let ghost w0 = w@;
        let mut i: usize = 0;
        proof {
            assert(u@.subrange(0, 0).len() == 0);
        }
        while i < 8
            invariant
                0 <= i <= 8,
                0 <= j < 8,
                0 <= k < 16,
                vj == v@[j as int],
                0 <= vj < 16,
                w0.len() == 16,
                limbs_ok(u@, 16),
                limbs_ok(w@, 16),
                forall|t: int| j + 8 <= t < 16 ==> w@[t] == 0,
                value(w@.subrange(0, j + 8), 16) + k * limb_pow(16, (i + j) as nat) == value(
                    w0.subrange(0, j + 8),
                    16,
                ) + vj * limb_pow(16, j as nat) * value(u@.subrange(0, i as int), 16),
            decreases 8 - i,
        {
            let ui = u[i];
            let wij = w[i + j];
            assert(0 <= ui * vj <= 225) by (nonlinear_arith)
                requires
                    0 <= ui < 16,
                    0 <= vj < 16,
            ;
            let t = ui * vj + wij + k;
            proof {
                lemma_nibble_split(t);
                lemma2_to64();
            }
            let ghost old_w = w@;
            let ghost kold = k;
            w[i + j] = t & 0x0F;
            k = arith_rightshift(t, 4);
            proof {
                let p = (i + j) as int;
                assert(w@.subrange(0, j + 8) =~= old_w.subrange(0, j + 8).update(p, t & 0x0F));
                lemma_value_update(old_w.subrange(0, j + 8), p, t & 0x0F, 16);
                lemma_value_prefix(u@, i as int, 16);
                lemma_pow_adds(16, i as nat, j as nat);
                let pp = limb_pow(16, p as nat);
                assert(limb_pow(16, (p + 1) as nat) == 16 * pp);
                let pi = limb_pow(16, i as nat);
                let pj = limb_pow(16, j as nat);
                assert(pp == pi * pj);
                let q = t / 16;
                let r = t % 16;
                assert(t == 16 * q + r);
                assert(k == q);
                assert((r - wij) * pp + q * (16 * pp) - kold * pp == ui * vj * pp)
                    by (nonlinear_arith)
                    requires
                        t == 16 * q + r,
                        t == ui * vj + wij + kold,
                ;
                assert(vj * pj * (ui * pi) == ui * vj * pp) by (nonlinear_arith)
                    requires
                        pp == pi * pj,
                ;
                let ua = value(u@.subrange(0, i as int), 16);
                assert(vj * pj * (ua + ui * pi) == vj * pj * ua + vj * pj * (ui * pi))
                    by (nonlinear_arith);
                assert(u@.subrange(0, i as int + 1) == u@.subrange(0, (i + 1) as int));
            }
            i += 1;
        }
        proof {
            lemma_value_prefix(v@, j as int, 16);
            lemma_value_prefix(w@, j + 8, 16);
            assert(u@.subrange(0, 8) =~= u@);
            assert(w@.update((j + 8) as int, k).subrange(0, j + 8) =~= w@.subrange(0, j + 8));
            assert(w@.update((j + 8) as int, k).subrange(0, j + 9) =~= w@.subrange(0, j + 8).push(k));
            lemma_value_push(w@.subrange(0, j + 8), k, 16);
            let uu = value(u@, 16);
            let vv = value(v@.subrange(0, j as int), 16);
            let pj = limb_pow(16, j as nat);
            assert(uu * vv + vj * pj * uu == uu * (vv + vj * pj)) by (nonlinear_arith);
        }
        w[j + 8] = k;
        j += 1;
    }
    proof {
        assert(w@.subrange(0, 16) =~= w@);
        assert(v@.subrange(0, 8) =~= v@);
    }
    w
}

/// The limbs `j ..= j + n` of `d` as one window.
pub open spec fn window(d: Seq<i16>, j: int, n: int) -> Seq<i16> {
    d.subrange(j, j + n + 1)
}

/// With nothing set above the window, the value is the part below the window plus the
/// window at its place.
proof fn lemma_window(d: Seq<i16>, j: int, n: int)
    requires
        0 <= j,
        0 <= n,
        j + n + 1 <= d.len(),
        forall|k: int| j + n + 1 <= k < d.len() ==> d[k] == 0,
    ensures
        value(d, 16) == value(d.subrange(0, j), 16) + limb_pow(16, j as nat) * value(
            window(d, j, n),
            16,
        ),
{
    lemma_value_split(d, j, 16);
    let hi = d.subrange(j, d.len() as int);
    lemma_value_split(hi, n + 1, 16);
    assert(hi.subrange(0, n + 1) =~= window(d, j, n));
    lemma_value_zeros(hi.subrange(n + 1, hi.len() as int), 16);
}

/// The window's top limb is zero when its value lies below `16^n` and its other limbs
/// are in range.
proof fn lemma_top_limb(win: Seq<i16>, n: int)
    requires
        win.len() == n + 1,
        n >= 0,
        limbs_ok(win.subrange(0, n), 16),
    ensures
        (win[n] < 0) == (value(win, 16) < 0),
        0 <= value(win, 16) < limb_pow(16, n as nat) ==> win[n] == 0,
{
    lemma_value_prefix(win, n, 16);
    assert(win.subrange(0, n + 1) =~= win);
    lemma_value_bounds(win.subrange(0, n), 16);
    let lo = value(win.subrange(0, n), 16);
    let p = limb_pow(16, n as nat);
    let top = win[n] as int;
    assert((top < 0) == (lo + top * p < 0)) by (nonlinear_arith)
        requires
            0 <= lo < p,
    ;
    assert(0 <= lo + top * p < p ==> top == 0) by (nonlinear_arith)
        requires
            0 <= lo < p,
    ;
}

/// Limb `hi` shifted left by `shift` bits, with the top bits of the limb below it
/// brought in, kept to four bits.
fn shl_limb(hi: i16, lo: i16, shift: i16) -> (r: i16)
    requires
        0 <= hi < 16,
        0 <= lo < 16,
        0 <= shift <= 3,
    ensures
        r == (hi as int * pow2(shift as nat)) % 16 + (lo as int) / (pow2((4 - shift) as nat) as int),
        0 <= r < 16,
{
    proof {
        lemma2_to64();
    }
    proof {
        let e = pow2(shift as nat) as int;
        assert(1 <= e <= 8) by {
            if shift == 0 {
                assert(pow2(0) == 1);
            } else if shift == 1 {
                assert(pow2(1) == 2);
            } else if shift == 2 {
                assert(pow2(2) == 4);
            } else {
                assert(pow2(3) == 8);
            }
        }
        assert(0 <= hi * e <= 120) by (nonlinear_arith)
            requires
                0 <= hi < 16,
                1 <= e <= 8,
        ;
    }
    let a = leftshift(hi, shift);
    let b = arith_rightshift(lo, 4 - shift);
    proof {
        lemma_div_lt(lo as int, pow2((4 - shift) as nat) as int, pow2(shift as nat) as int)
    }
    let sum = a + b;
    proof {
        let e = pow2(shift as nat) as int;
        let f = pow2((4 - shift) as nat) as int;
        assert(e * f == 16 && e >= 1 && f >= 1) by {
            if shift == 0 {
                assert(e == 1 && f == 16);
            } else if shift == 1 {
                assert(e == 2 && f == 8);
            } else if shift == 2 {
                assert(e == 4 && f == 4);
            } else {
                assert(e == 8 && f == 2);
            }
        }
        assert(0 <= a <= 120 && 0 <= b < e) by {
            lemma_div_lt(lo as int, f, e);
            assert(a == hi * e);
            assert(0 <= hi * e <= 15 * 8) by (nonlinear_arith)
                requires
                    0 <= hi < 16,
                    1 <= e <= 8,
            ;
        }
        lemma_nibble_split(sum);
        lemma_fundamental_div_mod(hi as int, f);
        lemma_mod_bound(hi as int, f);
        let q = (hi as int) / f;
        let r0 = (hi as int) % f;
        assert(a + b == 16 * q + (r0 * e + b)) by (nonlinear_arith)
            requires
                a == hi * e,
                hi == f * q + r0,
                e * f == 16,
        ;
        assert(0 <= r0 * e + b < 16) by (nonlinear_arith)
            requires
                0 <= r0 < f,
                0 <= b < e,
                e * f == 16,
        ;
        assert(a as int == 16 * q + r0 * e) by (nonlinear_arith)
            requires
                a == hi * e,
                hi == f * q + r0,
                e * f == 16,
        ;
        lemma_fundamental_div_mod_converse(a + b, 16, q, r0 * e + b);
        lemma_fundamental_div_mod_converse(a as int, 16, q, r0 * e);
    }
    let r = sum & 0x0F;
    r
}

/// Subtracts `qhat` times the divisor limbs `vn[0..n]` from the window of `dividend`
/// at `j`, limb by limb with a borrow. The top limb of the window takes the final
/// borrow and may go negative; it is returned.
fn multiply_subtract(dividend: &mut [i16; 17], vn: &[i16; 8], n: usize, j: usize, qhat: i16) -> (t: i16)
    requires
        2 <= n <= 8,
        j + n <= 16,
        limbs_ok(old(dividend)@, 16),
        limbs_ok(vn@, 16),
        0 <= qhat < 16,
    ensures
        t == final(dividend)@[j + n as int],
        -16 <= t < 16,
        forall|k: int|
            0 <= k < 17 && !(j <= k <= j + n) ==> final(dividend)@[k] == old(dividend)@[k],
        limbs_ok(final(dividend)@.subrange(j as int, j + n), 16),
        value(window(final(dividend)@, j as int, n as int), 16) == value(
            window(old(dividend)@, j as int, n as int),
            16,
        ) - qhat * value(vn@.subrange(0, n as int), 16),
{
    let ghost d0 = dividend@;
    let mut carry: i16 = 0;
    let mut i: usize = 0;
    proof {
        lemma2_to64();
        assert(vn@.subrange(0, 0).len() == 0);
    }
    while i < n
        invariant
            0 <= i <= n,
            2 <= n <= 8,
            j + n <= 16,
            0 <= qhat < 16,
            0 <= carry <= 16,
            limbs_ok(vn@, 16),
            limbs_ok(d0, 16),
            d0.len() == 17,
            forall|k: int| 0 <= k < 17 && !(j <= k < j + i) ==> dividend@[k] == d0[k],
            forall|k: int| j <= k < j + i ==> 0 <= #[trigger] dividend@[k] < 16,
            value(window(dividend@, j as int, n as int), 16) - carry * limb_pow(16, i as nat)
                == value(window(d0, j as int, n as int), 16) - qhat * value(
                vn@.subrange(0, i as int),
                16,
            ),
        decreases n - i,
    {
        let vi = vn[i];
        assert(0 <= qhat * vi <= 225) by (nonlinear_arith)
            requires
                0 <= qhat < 16,
                0 <= vi < 16,
        ;
        let multiplied = qhat * vi;
        proof {
            lemma_nibble_split(multiplied);
        }
        let old_digit = dividend[i + j];
        proof {
            lemma2_to64();
            assert(dividend@[(i + j) as int] == d0[(i + j) as int]);
        }
        let t = old_digit - carry - (multiplied & 0x0F);
        let ghost before = dividend@;
        dividend[i + j] = t & 0x0F;
        let ghost c0 = carry as int;
        carry = arith_rightshift(multiplied, 4) - arith_rightshift(t, 4);
        proof {
            assert((t & 0x0F) as int == (t as int) % 16) by (bit_vector);
            let pw = limb_pow(16, i as nat);
            assert(limb_pow(16, (i + 1) as nat) == 16 * pw);
            let win0 = window(before, j as int, n as int);
            assert(window(dividend@, j as int, n as int) =~= win0.update(i as int, t & 0x0F));
            lemma_value_update(win0, i as int, t & 0x0F, 16);
            lemma_value_prefix(vn@, i as int, 16);
            let ph = multiplied / 16;
            let pl = multiplied % 16;
            let th = (t as int) / 16;
            let tl = (t as int) % 16;
            assert(t == 16 * th + tl);
            assert(multiplied == 16 * ph + pl);
            assert((tl - old_digit) * pw - carry * (16 * pw) + c0 * pw == -(qhat * vi) * pw)
                by (nonlinear_arith)
                requires
                    t == old_digit - c0 - pl,
                    t == 16 * th + tl,
                    multiplied == 16 * ph + pl,
                    carry == ph - th,
                    multiplied == qhat * vi,
            ;
            let va = value(vn@.subrange(0, i as int), 16);
            assert(qhat * (va + vi * pw) == qhat * va + qhat * vi * pw) by (nonlinear_arith);
            assert(win0[i as int] == old_digit);
            assert(value(window(dividend@, j as int, n as int), 16) == value(win0, 16) + (tl
                - old_digit) * pw);
            assert(value(vn@.subrange(0, i + 1), 16) == va + vi * pw);
            assert(-(qhat * vi) * pw == -(qhat * vi * pw)) by (nonlinear_arith);
        }
        i += 1;
    }
    let t = dividend[j + n] - carry;
    let ghost before = dividend@;
    dividend[j + n] = t;
    proof {
        let win0 = window(before, j as int, n as int);
        assert(window(dividend@, j as int, n as int) =~= win0.update(n as int, t));
        lemma_value_update(win0, n as int, t, 16);
        assert(dividend@.subrange(j as int, j + n) =~= before.subrange(j as int, j + n));
        let pw = limb_pow(16, n as nat);
        assert(before[j + n as int] == d0[j + n as int]);
        assert((t - before[j + n as int]) * pw == -(carry * pw)) by (nonlinear_arith)
            requires
                t == before[j + n as int] - carry,
        ;
    }
    t
}

/// Adds the divisor limbs `vn[0..n]` back into the window of `dividend` at `j`, with
/// carry; the final carry goes into the window's top limb.
fn add_back(dividend: &mut [i16; 17], vn: &[i16; 8], n: usize, j: usize)
    requires
        2 <= n <= 8,
        j + n <= 16,
        limbs_ok(old(dividend)@.subrange(j as int, j + n), 16),
        -16 <= old(dividend)@[j + n as int] < 16,
        limbs_ok(vn@, 16),
    ensures
        forall|k: int|
            0 <= k < 17 && !(j <= k <= j + n) ==> final(dividend)@[k] == old(dividend)@[k],
        limbs_ok(final(dividend)@.subrange(j as int, j + n), 16),
        value(window(final(dividend)@, j as int, n as int), 16) == value(
            window(old(dividend)@, j as int, n as int),
            16,
        ) + value(vn@.subrange(0, n as int), 16),
{
    let ghost d0 = dividend@;
    let mut carry: i16 = 0;
    let mut i: usize = 0;
    proof {
        lemma2_to64();
        assert(vn@.subrange(0, 0).len() == 0);
    }
    while i < n
        invariant
            0 <= i <= n,
            2 <= n <= 8,
            j + n <= 16,
            0 <= carry <= 1,
            limbs_ok(vn@, 16),
            limbs_ok(d0.subrange(j as int, j + n), 16),
            -16 <= d0[j + n as int] < 16,
            d0.len() == 17,
            forall|k: int| 0 <= k < 17 && !(j <= k < j + i) ==> dividend@[k] == d0[k],
            forall|k: int| j <= k < j + i ==> 0 <= #[trigger] dividend@[k] < 16,
            value(window(dividend@, j as int, n as int), 16) + carry * limb_pow(16, i as nat)
                == value(window(d0, j as int, n as int), 16) + value(vn@.subrange(0, i as int), 16),
        decreases n - i,
    {
        assert(0 <= d0.subrange(j as int, j + n)[i as int] < 16);
        let vi = vn[i];
        let old_digit = dividend[i + j];
        proof {
            lemma2_to64();
            assert(dividend@[(i + j) as int] == d0[(i + j) as int]);
            assert(d0.subrange(j as int, j + n)[i as int] == d0[(i + j) as int]);
        }
        let t = old_digit + vi + carry;
        proof {
            lemma_nibble_split(t);
        }
        let ghost before = dividend@;
        dividend[i + j] = t & 0x0F;
        let ghost c0 = carry as int;
        carry = arith_rightshift(t, 4);
        proof {
            let pw = limb_pow(16, i as nat);
            assert(limb_pow(16, (i + 1) as nat) == 16 * pw);
            let win0 = window(before, j as int, n as int);
            assert(window(dividend@, j as int, n as int) =~= win0.update(i as int, t & 0x0F));
            lemma_value_update(win0, i as int, t & 0x0F, 16);
            lemma_value_prefix(vn@, i as int, 16);
            let th = (t as int) / 16;
            let tl = (t as int) % 16;
            assert(t == 16 * th + tl);
            assert((tl - old_digit) * pw + carry * (16 * pw) - c0 * pw == vi * pw)
                by (nonlinear_arith)
                requires
                    t == old_digit + vi + c0,
                    t == 16 * th + tl,
                    carry == th,
            ;
        }
        i += 1;
    }
    let ghost before = dividend@;
    let t = dividend[j + n] + carry;
    dividend[j + n] = t;
    proof {
        let win0 = window(before, j as int, n as int);
        assert(window(dividend@, j as int, n as int) =~= win0.update(n as int, t));
        lemma_value_update(win0, n as int, t, 16);
        assert(dividend@.subrange(j as int, j + n) =~= before.subrange(j as int, j + n));
        let pw = limb_pow(16, n as nat);
        assert(before[j + n as int] == d0[j + n as int]);
        assert((t - before[j + n as int]) * pw == carry * pw) by (nonlinear_arith)
            requires
                t == before[j + n as int] + carry,
        ;
    }
}

/// The quotient digit of the window of `dividend` at `j` by the normalized divisor
/// `vn[0..n]`: estimated from the top two window limbs and the top divisor limb, then
/// lowered while the second divisor limb shows it too large. The result is the true
/// digit or one more.
fn trial_digit(dividend: &[i16; 17], vn: &[i16; 8], n: usize, j: usize) -> (qhat: i16)
    requires
        2 <= n <= 8,
        j + n <= 16,
        limbs_ok(dividend@, 16),
        limbs_ok(vn@, 16),
        vn@[n - 1] >= 8,
        value(window(dividend@, j as int, n as int), 16) < 16 * value(
            vn@.subrange(0, n as int),
            16,
        ),
    ensures
        0 <= qhat < 16,
        value(window(dividend@, j as int, n as int), 16) / value(vn@.subrange(0, n as int), 16)
            <= qhat <= value(window(dividend@, j as int, n as int), 16) / value(
            vn@.subrange(0, n as int),
            16,
        ) + 1,
{
    let ghost win = window(dividend@, j as int, n as int);
    let ghost vs = vn@.subrange(0, n as int);
    let ghost w = value(win, 16);
    let ghost v = value(vs, 16);
    let ghost p = limb_pow(16, (n - 2) as nat);
    let ghost wl = value(dividend@.subrange(j as int, j + n - 2), 16);
    let ghost vl = value(vn@.subrange(0, n - 2), 16);
    let v1 = vn[n - 1];
    let v2 = vn[n - 2];
    let u2 = dividend[j + n - 2];
    let val = dividend[j + n] * 16 + dividend[j + n - 1];
    proof {
        lemma_value_top3(win);
        assert(win.subrange(0, n - 2) =~= dividend@.subrange(j as int, j + n - 2));
        lemma_value_top2(vs);
        assert(vs.subrange(0, n - 2) =~= vn@.subrange(0, n - 2));
        assert(limbs_ok(dividend@.subrange(j as int, j + n - 2), 16));
        assert(limbs_ok(vn@.subrange(0, n - 2), 16));
        lemma_value_bounds(dividend@.subrange(j as int, j + n - 2), 16);
        lemma_value_bounds(vn@.subrange(0, n - 2), 16);
        lemma_pow_pos(16, (n - 2) as nat);
        assert(w == (val * 16 + u2) * p + wl) by (nonlinear_arith)
            requires
                w == wl + p * (win[n - 2] + 16 * win[n - 1] + 256 * win[n as int]),
                val == win[n as int] * 16 + win[n - 1],
                u2 == win[n - 2],
        ;
        assert(v == (v1 * 16 + v2) * p + vl) by (nonlinear_arith)
            requires
                v == vl + p * (vs[n - 2] + 16 * vs[n - 1]),
                v1 == vs[n - 1],
                v2 == vs[n - 2],
        ;
        lemma_trial_start(w, v, val as int, u2 as int, wl, v1 as int, v2 as int, vl, p);
    }
    let mut qhat = val / v1;
    proof {
        lemma_fundamental_div_mod(val as int, v1 as int);
        lemma_mod_bound(val as int, v1 as int);
        assert(v1 * qhat == qhat * v1) by (nonlinear_arith);
    }
    let mut rhat = val - qhat * v1;
    let mut refining = true;
    while refining
        invariant
            2 <= n <= 8,
            0 <= u2 < 16,
            0 <= v2 < 16,
            8 <= v1 < 16,
            0 <= val < (v1 + 1) * 16,
            p >= 1,
            0 <= wl < p,
            0 <= vl < p,
            w == (val * 16 + u2) * p + wl,
            v == (v1 * 16 + v2) * p + vl,
            v > 0,
            w >= 0,
            w / v < 16,
            w / v <= qhat <= 17,
            rhat == val - qhat * v1,
            0 <= rhat < 32,
            refining ==> rhat < 16,
            !refining ==> qhat < 16 && qhat * v2 <= 16 * rhat + u2,
        decreases qhat + if refining {
            1int
        } else {
            0int
        },
    {
        assert(0 <= qhat * v2 <= 17 * 15) by (nonlinear_arith)
            requires
                0 <= qhat <= 17,
                0 <= v2 < 16,
        ;
        if qhat >= 16 || qhat * v2 > 16 * rhat + u2 {
            proof {
                if qhat < 16 {
                    assert(qhat >= 1) by (nonlinear_arith)
                        requires
                            qhat * v2 > 16 * rhat + u2,
                            rhat >= 0,
                            u2 >= 0,
                            qhat >= 0,
                    ;
                    lemma_trial_decrease(
                        w,
                        v,
                        val as int,
                        u2 as int,
                        wl,
                        v1 as int,
                        v2 as int,
                        vl,
                        p,
                        qhat as int,
                        rhat as int,
                    );
                }
            }
            let ghost q0 = qhat;
            qhat -= 1;
            rhat += v1;
            assert(rhat == val - qhat * v1) by (nonlinear_arith)
                requires
                    qhat == q0 - 1,
                    rhat == val - q0 * v1 + v1,
            ;
            if rhat >= 16 {
                refining = false;
                assert(qhat < 16) by (nonlinear_arith)
                    requires
                        rhat == val - qhat * v1,
                        rhat >= 16,
                        val < (v1 + 1) * 16,
                        v1 >= 8,
                ;
                assert(qhat * v2 <= 15 * 15) by (nonlinear_arith)
                    requires
                        0 <= qhat < 16,
                        0 <= v2 < 16,
                ;
            }
        } else {
            refining = false;
        }
    }
    proof {
        lemma_trial_exact(
            w,
            v,
            val as int,
            u2 as int,
            wl,
            v1 as int,
            v2 as int,
            vl,
            p,
            qhat as int,
            rhat as int,
        );
    }
    qhat
}

/// Shifting a non-zero 4-bit value left by its count of leading zeros sets its top bit.
proof fn lemma_nlz_normalizes(x: int)
    requires
        1 <= x < 16,
    ensures
        0 <= nlz4(x) <= 3,
        8 <= x * pow2(nlz4(x) as nat) < 16,
        x < pow2((4 - nlz4(x)) as nat),
{
    lemma2_to64();
    if x >= 8 {
        assert(x * pow2(0) == x);
    } else if x >= 4 {
        assert(x * pow2(1) == x * 2);
    } else if x >= 2 {
        assert(x * pow2(2) == x * 4);
    } else {
        assert(x * pow2(3) == x * 8);
    }
}

proof fn lemma_small_div(x: int, d: int)
    requires
        0 <= x < d,
    ensures
        x / d == 0,
{
    lemma_fundamental_div_mod_converse(x, d, 0, x);
}

/// Scaling dividend and divisor by the same positive factor keeps the quotient.
proof fn lemma_div_scaled(a: int, d: int, e: int)
    requires
        a >= 0,
        d > 0,
        e > 0,
    ensures
        (a * e) / (d * e) == a / d,
{
    lemma_fundamental_div_mod(a, d);
    lemma_mod_bound(a, d);
    let q = a / d;
    let r = a % d;
    assert(a * e == q * (d * e) + r * e) by (nonlinear_arith)
        requires
            a == d * q + r,
    ;
    assert(0 <= r * e < d * e) by (nonlinear_arith)
        requires
            0 <= r < d,
            e > 0,
    ;
    lemma_fundamental_div_mod_converse(a * e, d * e, q, r * e);
}

/// Rolling-remainder division of the radix-16 vector `u` by the single limb `d`.
fn divide_by_limb(u: &[i16; 16], d: i16) -> (q: [i16; 16])
    requires
        limbs_ok(u@, 16),
        1 <= d < 16,
    ensures
        limbs_ok(q@, 16),
        value(q@, 16) == value(u@, 16) / (d as int),
{
    let base: i16 = 16;
    let mut q = [0i16; 16];
    let mut k: i16 = 0;
    let mut j: usize = 16;
    proof {
        assert(u@.subrange(16, 16).len() == 0);
        assert(q@.subrange(16, 16).len() == 0);
    }
    while j > 0
        invariant
            0 <= j <= 16,
            0 <= k < d,
            1 <= d < 16,
            base == 16,
            limbs_ok(u@, 16),
            limbs_ok(q@, 16),
            forall|t: int| 0 <= t < j ==> q@[t] == 0,
            value(u@.subrange(j as int, 16), 16) == value(q@.subrange(j as int, 16), 16) * d + k,
        decreases j,
    {
        j -= 1;
        let val = k * base + u[j];
        assert(0 <= val < 16 * d) by (nonlinear_arith)
            requires
                val == k * 16 + u@[j as int],
                0 <= k < d,
                0 <= u@[j as int] < 16,
        ;
        let ghost before = q@;
        let digit = val / d;
        proof {
            lemma_fundamental_div_mod(val as int, d as int);
            lemma_mod_bound(val as int, d as int);
            lemma_div_lt(val as int, d as int, 16);
            assert(d * digit == digit * d) by (nonlinear_arith);
        }
        q[j] = digit;
        let ghost k0 = k as int;
        k = val - digit * d;
        proof {
            lemma_value_suffix(u@, j as int, 16);
            lemma_value_suffix(q@, j as int, 16);
            assert(q@.subrange(j + 1, 16) =~= before.subrange(j + 1, 16));
            let hq = value(before.subrange(j + 1, 16), 16);
            assert((digit + 16 * hq) * d + k == u@[j as int] + 16 * (hq * d + k0))
                by (nonlinear_arith)
                requires
                    val == k0 * 16 + u@[j as int],
                    k == val - digit * d,
            ;
        }
    }
    proof {
        assert(u@.subrange(0, 16) =~= u@);
        assert(q@.subrange(0, 16) =~= q@);
        lemma_fundamental_div_mod_converse(value(u@, 16), d as int, value(q@, 16), k as int);
    }
    q
}

/// Quotient of the sixteen radix-16 limbs `u` by the `v_size` low limbs of `v`, whose
/// top limb is non-zero. A one-limb divisor takes a rolling remainder; a longer one is
/// divided by Knuth's normalized long division: both operands are shifted left until
/// the divisor's top bit is set, and each quotient digit is estimated, corrected and
/// taken off the running remainder from the most significant down.
pub fn u4_array_div_u4_array(u: &[i16; 16], v: &[i16; 8], v_size: usize) -> (q: [i16; 16])
    requires
        limbs_ok(u@, 16),
        limbs_ok(v@, 16),
        1 <= v_size <= 8,
        v@[v_size - 1] != 0,
        forall|i: int| v_size <= i < 8 ==> v@[i] == 0,
    ensures
        limbs_ok(q@, 16),
        value(q@, 16) == value(u@, 16) / value(v@, 16),
{
    let n = v_size;
    proof {
        lemma_value_split(v@, n as int, 16);
        lemma_value_zeros(v@.subrange(n as int, 8), 16);
        lemma_value_bounds(u@, 16);
    }
    if n == 1 {
        proof {
            lemma_value_prefix(v@, 0, 16);
            assert(value(v@.subrange(0, 0), 16) == 0);
            assert(limb_pow(16, 0) == 1);
            assert(value(v@.subrange(0, 1), 16) == v@[0]);
            assert(value(v@.subrange(1, 8), 16) == 0);
            assert(limb_pow(16, 1) == 16);
            assert(value(v@, 16) == v@[0]);
        }
        return divide_by_limb(u, v[0]);
    }
    let shift = nlz_u4(v[n - 1]);
    proof {
        lemma_nlz_normalizes(v@[n - 1] as int);
    }
    let mut vn = [0i16; 8];
    let mut i: usize = n - 1;
    while i > 0
        invariant
            0 <= i < n,
            2 <= n <= 8,
            0 <= shift <= 3,
            limbs_ok(v@, 16),
            limbs_ok(vn@, 16),
            forall|t: int| i < t < n ==> vn@[t] == shl_digit(v@, t, shift as nat),
            forall|t: int| n <= t < 8 ==> vn@[t] == 0,
        decreases i,
    {
        vn[i] = shl_limb(v[i], v[i - 1], shift);
        i -= 1;
    }
    vn[0] = shl_limb(v[0], 0, shift);
    let mut dividend = [0i16; 17];
    dividend[16] = arith_rightshift(u[15], 4 - shift);
    let mut i: usize = 15;
    while i > 0
        invariant
            0 <= i <= 15,
            0 <= shift <= 3,
            limbs_ok(u@, 16),
            forall|t: int| i < t < 16 ==> dividend@[t] == shl_digit(u@, t, shift as nat),
            forall|t: int| i < t < 16 ==> 0 <= #[trigger] dividend@[t] < 16,
            dividend@[16] == (u@[15] as int) / (pow2((4 - shift) as nat) as int),
            forall|t: int| 0 <= t <= i ==> dividend@[t] == 0,
        decreases i,
    {
        dividend[i] = shl_limb(u[i], u[i - 1], shift);
        i -= 1;
    }
    dividend[0] = shl_limb(u[0], 0, shift);
    let ghost sh = shift as nat;
    let ghost vv = value(vn@.subrange(0, n as int), 16);
    let ghost u2 = value(u@, 16) * pow2(sh);
    proof {
        lemma2_to64();
        assert(vn@[0] == shl_digit(v@, 0, sh));
        assert(dividend@[0] == shl_digit(u@, 0, sh));
        lemma_shl_value(v@, vn@, n as int, sh);
        lemma_shl_value(u@, dividend@, 16, sh);
        let f = pow2((4 - sh) as nat) as int;
        assert((v@[n - 1] as int) / f == 0) by {
            lemma_small_div(v@[n - 1] as int, f);
        }
        assert(u@.subrange(0, 16) =~= u@);
        lemma_value_prefix(dividend@, 16, 16);
        assert(dividend@.subrange(0, 17) =~= dividend@);
        assert(0 <= dividend@[16] < 16) by {
            lemma_div_lt(u@[15] as int, f, 16);
        }
        assert(limbs_ok(dividend@, 16));
        assert(vn@[n - 1] >= 8);
        lemma_value_bounds(vn@.subrange(0, n as int), 16);
        assert(vv + ((v@[n - 1] as int) / f) * limb_pow(16, n as nat) == value(
            v@.subrange(0, n as int),
            16,
        ) * pow2(sh));
        assert(vv == value(v@.subrange(0, n as int), 16) * pow2(sh));
        lemma_value_bounds(v@.subrange(0, n as int), 16);
        assert(vv >= 8 * limb_pow(16, (n - 1) as nat)) by {
            lemma_value_prefix(vn@.subrange(0, n as int), n - 1, 16);
            assert(vn@.subrange(0, n as int).subrange(0, n as int) =~= vn@.subrange(0, n as int));
            lemma_value_bounds(vn@.subrange(0, n - 1), 16);
            assert(vn@.subrange(0, n as int).subrange(0, n - 1) =~= vn@.subrange(0, n - 1));
            let pw = limb_pow(16, (n - 1) as nat);
            lemma_pow_pos(16, (n - 1) as nat);
            assert(vn@[n - 1] * pw >= 8 * pw) by (nonlinear_arith)
                requires
                    vn@[n - 1] >= 8,
                    pw > 0,
            ;
        }
        lemma_pow_adds(16, (n - 1) as nat, (17 - n) as nat);
        assert((n - 1) as nat + (17 - n) as nat == 16);
        lemma_pow_pos(16, (17 - n) as nat);
        let big = limb_pow(16, 16);
        let pa = limb_pow(16, (n - 1) as nat);
        let pb = limb_pow(16, (17 - n) as nat);
        let uu = value(u@, 16);
        let e = pow2(sh) as int;
        assert(1 <= e <= 8);
        assert(uu * e < big * 8) by (nonlinear_arith)
            requires
                0 <= uu < big,
                1 <= e <= 8,
        ;
        assert(big * 8 <= vv * pb) by (nonlinear_arith)
            requires
                big == pa * pb,
                vv >= 8 * pa,
                pb > 0,
        ;
    }
    let mut q = [0i16; 16];
    proof {
        lemma_value_zeros(q@, 16);
    }
    let mut jj: usize = 17 - n;
    while jj > 0
        invariant
            2 <= n <= 8,
            jj <= 17 - n,
            limbs_ok(dividend@, 16),
            limbs_ok(q@, 16),
            limbs_ok(vn@, 16),
            vn@[n - 1] >= 8,
            vv == value(vn@.subrange(0, n as int), 16),
            vv == value(v@.subrange(0, n as int), 16) * pow2(sh),
            u2 == value(u@, 16) * pow2(sh),
            vv > 0,
            forall|k: int| jj + n <= k < 17 ==> dividend@[k] == 0,
            forall|k: int| 0 <= k < jj ==> q@[k] == 0,
            u2 == value(dividend@, 16) + vv * value(q@, 16),
            value(dividend@, 16) < vv * limb_pow(16, jj as nat),
        decreases jj,
    {
        let j = jj - 1;
        let ghost d0 = dividend@;
        let ghost q0 = q@;
        let ghost w = value(window(d0, j as int, n as int), 16);
        let ghost pj = limb_pow(16, j as nat);
        let ghost low = value(d0.subrange(0, j as int), 16);
        proof {
            lemma_window(d0, j as int, n as int);
            lemma_pow_pos(16, j as nat);
            assert(limb_pow(16, jj as nat) == 16 * pj);
            assert(limbs_ok(d0.subrange(0, j as int), 16));
            lemma_value_bounds(d0.subrange(0, j as int), 16);
            assert(limbs_ok(window(d0, j as int, n as int), 16));
            lemma_value_bounds(window(d0, j as int, n as int), 16);
            assert(w < 16 * vv) by (nonlinear_arith)
                requires
                    low + pj * w < vv * (16 * pj),
                    low >= 0,
                    pj > 0,
            ;
        }
        let qhat = trial_digit(&dividend, &vn, n, j);
        let t = multiply_subtract(&mut dividend, &vn, n, j, qhat);
        q[j] = qhat;
        let ghost qt = w / vv;
        proof {
            lemma_top_limb(window(dividend@, j as int, n as int), n as int);
            assert(window(dividend@, j as int, n as int).subrange(0, n as int) =~= dividend@.subrange(j as int, j + n));
            lemma_fundamental_div_mod(w, vv);
            lemma_mod_bound(w, vv);
            assert(qt >= 0) by (nonlinear_arith)
                requires
                    w == vv * qt + w % vv,
                    0 <= w % vv < vv,
                    w >= 0,
            ;
        }
        if t < 0 {
            proof {
                assert(qhat != qt) by (nonlinear_arith)
                    requires
                        w - qhat * vv < 0,
                        w == vv * qt + w % vv,
                        w % vv >= 0,
                ;
            }
            q[j] = qhat - 1;
            let ghost w1 = value(window(dividend@, j as int, n as int), 16);
            add_back(&mut dividend, &vn, n, j);
            proof {
                assert(value(window(dividend@, j as int, n as int), 16) == w - qt * vv)
                    by (nonlinear_arith)
                    requires
                        value(window(dividend@, j as int, n as int), 16) == w1 + vv,
                        w1 == w - qhat * vv,
                        qhat == qt + 1,
                ;
            }
        } else {
            proof {
                assert(qhat == qt) by (nonlinear_arith)
                    requires
                        w - qhat * vv >= 0,
                        w == vv * qt + w % vv,
                        w % vv < vv,
                        qt <= qhat <= qt + 1,
                ;
            }
        }
        proof {
            let d1 = dividend@;
            let wf = value(window(d1, j as int, n as int), 16);
            assert(wf == w - qt * vv);
            assert(wf == w % vv);
            lemma_value_bounds(vn@.subrange(0, n as int), 16);
            lemma_top_limb(window(d1, j as int, n as int), n as int);
            assert(window(d1, j as int, n as int).subrange(0, n as int) =~= d1.subrange(j as int, j + n));
            assert(d1[j + n as int] == 0);
            assert forall|k: int| 0 <= k < 17 implies 0 <= #[trigger] d1[k] < 16 by {
                if j <= k < j + n {
                    assert(d1.subrange(j as int, j + n)[k - j] == d1[k]);
                }
            }
            lemma_window(d1, j as int, n as int);
            assert(d1.subrange(0, j as int) =~= d0.subrange(0, j as int));
            lemma_value_update(q0, j as int, q@[j as int], 16);
            assert(q@ =~= q0.update(j as int, q@[j as int]));
            assert(value(d1, 16) < vv * pj) by (nonlinear_arith)
                requires
                    value(d1, 16) == low + pj * wf,
                    0 <= low < pj,
                    0 <= wf < vv,
            ;
            assert(value(d1, 16) + vv * value(q@, 16) == u2) by (nonlinear_arith)
                requires
                    value(d1, 16) == low + pj * (w - qt * vv),
                    value(d0, 16) == low + pj * w,
                    value(q@, 16) == value(q0, 16) + (qt - 0) * pj,
                    u2 == value(d0, 16) + vv * value(q0, 16),
            ;
        }
        jj = j;
    }
    proof {
        assert(limb_pow(16, 0) == 1);
        lemma_value_bounds(dividend@, 16);
        assert(value(dividend@, 16) < vv);
        assert(u2 == value(q@, 16) * vv + value(dividend@, 16)) by (nonlinear_arith)
            requires
                u2 == value(dividend@, 16) + vv * value(q@, 16),
        ;
        lemma_fundamental_div_mod_converse(u2, vv, value(q@, 16), value(dividend@, 16));
        lemma_pow2_pos(sh);
        assert(value(v@.subrange(0, n as int), 16) > 0) by (nonlinear_arith)
            requires
                vv == value(v@.subrange(0, n as int), 16) * pow2(sh),
                vv > 0,
                pow2(sh) > 0,
        ;
        lemma_div_scaled(value(u@, 16), value(v@.subrange(0, n as int), 16), pow2(sh) as int);
    }
    q
}

} // verus!
