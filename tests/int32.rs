use wide_fixed::int32::Int32;
use wide_fixed::shift::{arith_rightshift, leftshift, nlz_u4};

fn check_mul(x: i16, y: i16) {
    let mut result = Int32::from(x);
    result.do_mul(&Int32::from(y));
    assert_eq!(result.to_i32(), i32::from(x) * i32::from(y), "{} x {}", x, y);
}

fn check_add(x: i16, y: i16) {
    let mut result = Int32::from(x);
    result.do_add(&Int32::from(y));
    assert_eq!(result.to_i32(), i32::from(x) + i32::from(y), "{} + {}", x, y);
}

fn check_sub(x: i16, y: i16) {
    let mut result = Int32::from(x);
    result.do_sub(&Int32::from(y));
    assert_eq!(result.to_i32(), i32::from(x) - i32::from(y), "{} - {}", x, y);
}

fn check_cmp(x: i16, y: i16) {
    let actual = Int32::from(x).cmp(&Int32::from(y));
    let delta = x - y;
    let expected = if delta > 0 {
        1
    } else if delta == 0 {
        0
    } else {
        -1
    };
    assert_eq!(actual, expected, "compare {} with {}", x, y);
}

fn check_div(x: i32, y: i32) {
    let mut result = Int32::from_i32(x);
    result.do_div(&Int32::from_i32(y));
    assert_eq!(result.to_i32(), x / y, "{} / {}", x, y);
}

#[test]
fn int32_test_add() {
    check_add(4, 3);
    check_add(100, 3);
    check_add(100, 350);
    check_add(10, 5000);
    check_add(5000, 6000);
    check_add(13082, 23082);
    check_add(32600, 32600);
    check_add(2, -2);
    check_add(4, -2);
    check_add(-4, -3);
    check_add(-4, 1000);
    check_add(1508, -1600);
    check_add(0, -1);
    check_add(-1, 0);
    check_add(0, 0);
    check_add(1, 0);
    check_add(0, 1);
}

#[test]
fn int32_test_sub() {
    check_sub(4, 3);
    check_sub(100, 3);
    check_sub(100, 350);
    check_sub(10, 5000);
    check_sub(5000, 6000);
    check_sub(13082, 23082);
    check_sub(32600, 32600);
    check_sub(2, -2);
    check_sub(4, -2);
    check_sub(-4, -3);
    check_sub(-4, 1000);
    check_sub(1508, -1600);
    check_sub(0, -1);
    check_sub(-1, 0);
    check_sub(0, 0);
    check_sub(1, 0);
    check_sub(0, 1);
}

#[test]
fn int32_test_mul() {
    check_mul(4, 3);
    check_mul(100, 3);
    check_mul(100, 350);
    check_mul(10, 5000);
    check_mul(5000, 5000);
    check_mul(32600, 32600);
    check_mul(2, -2);
    check_mul(4, -2);
    check_mul(-4, -3);
    check_mul(5082, 0);
    check_mul(0, 5082);
    check_mul(255, 255);
}

#[test]
fn int32_test_div() {
    let cases: [(i32, i32); 20] = [
        (4, 3),
        (100, 3),
        (10000, 3),
        (10000, 1),
        (5000, 1000),
        (100, 350),
        (10, 5000),
        (10098, 594),
        (10099, 594),
        (10097, 594),
        (13, 2),
        (13, 6),
        (2382, 124),
        (5000, 5000),
        (32600, 32600),
        (2, -2),
        (4, -2),
        (-4, -3),
        (0, 5082),
        (2355744, 1534),
    ];
    for (x, y) in cases {
        check_div(x, y);
    }
}

#[test]
fn int32_test_neg() {
    let mut x = Int32::from(0);
    x.do_neg();
    assert_eq!(x.to_i32(), 0);

    let mut x = Int32::from(1);
    x.do_neg();
    assert_eq!(x.to_i32(), -1);

    let mut x = Int32::from(-5);
    x.do_neg();
    assert_eq!(x.to_i32(), 5);

    let mut x = Int32::from(30000);
    x.do_neg();
    assert_eq!(x.to_i32(), -30000);

    let mut x = Int32::from(-30000);
    x.do_neg();
    assert_eq!(x.to_i32(), 30000);

    let mut x = Int32::from(256);
    x.do_neg();
    assert_eq!(x.to_i32(), -256);
}

#[test]
fn int32_test_abs() {
    let mut x = Int32::from(0);
    x.do_abs();
    assert_eq!(x.to_i32(), 0);

    let mut x = Int32::from(1);
    x.do_abs();
    assert_eq!(x.to_i32(), 1);

    let mut x = Int32::from(-5);
    x.do_abs();
    assert_eq!(x.to_i32(), 5);

    let mut x = Int32::from(30000);
    x.do_abs();
    assert_eq!(x.to_i32(), 30000);

    let mut x = Int32::from(-30000);
    x.do_abs();
    assert_eq!(x.to_i32(), 30000);
}

#[test]
fn int32_test_right_shift() {
    let mut x = Int32::from(0);
    x.do_right_shift_bytes(1);
    assert_eq!(x.to_i32(), 0);

    let mut x = Int32::from(1);
    x.do_right_shift_bytes(1);
    assert_eq!(x.to_i32(), 0);

    let mut x = Int32::from(-5);
    x.do_right_shift_bytes(1);
    assert_eq!(x.to_i32(), 0);

    let mut x = Int32::from(30000);
    x.do_right_shift_bytes(1);
    assert_eq!(x.to_i32(), 117);

    let mut x = Int32::from(-30000);
    x.do_right_shift_bytes(1);
    assert_eq!(x.to_i32(), -117);

    let mut x = Int32::from(256);
    let y = x;
    x.do_mul(&y);
    x.do_mul(&y);
    x.do_right_shift_bytes(1);
    assert_eq!(x.to_i32(), 65536);
    x.do_right_shift_bytes(1);
    assert_eq!(x.to_i32(), 256);
    x.do_right_shift_bytes(1);
    assert_eq!(x.to_i32(), 1);

    let mut x = Int32::from(256);
    x.do_mul(&y);
    x.do_mul(&y);
    x.do_right_shift_bytes(2);
    assert_eq!(x.to_i32(), 256);

    let mut x = Int32::from(256);
    x.do_mul(&y);
    x.do_mul(&y);
    x.do_right_shift_bytes(3);
    assert_eq!(x.to_i32(), 1);
}

#[test]
fn int32_test_left_shift() {
    let mut x = Int32::from(0);
    x.do_left_shift_bytes(1);
    assert_eq!(x.to_i32(), 0);

    let mut x = Int32::from(1);
    x.do_left_shift_bytes(1);
    assert_eq!(x.to_i32(), 256);

    let mut x = Int32::from(-5);
    x.do_left_shift_bytes(1);
    assert_eq!(x.to_i32(), -1280);

    let mut x = Int32::from(30000);
    x.do_left_shift_bytes(1);
    assert_eq!(x.to_i32(), 7680000);

    let mut x = Int32::from(-30000);
    x.do_left_shift_bytes(1);
    assert_eq!(x.to_i32(), -7680000);

    let mut x = Int32::from(1);
    x.do_left_shift_bytes(1);
    assert_eq!(x.to_i32(), 256);
    x.do_left_shift_bytes(1);
    assert_eq!(x.to_i32(), 65536);
    x.do_left_shift_bytes(1);
    assert_eq!(x.to_i32(), 16777216);

    let mut x = Int32::from(1);
    x.do_left_shift_bytes(2);
    assert_eq!(x.to_i32(), 65536);

    let mut x = Int32::from(1);
    x.do_left_shift_bytes(3);
    assert_eq!(x.to_i32(), 16777216);
}

#[test]
fn test_cmp() {
    check_cmp(1, -1);
    check_cmp(0, 0);
    check_cmp(1, 1);
    check_cmp(-1, -1);

    check_cmp(20, -1);
    check_cmp(0, 0);
    check_cmp(1, 100);
    check_cmp(-1, -100);
    check_cmp(-5, 5);
    check_cmp(200, -380);

    check_cmp(-500, -400);
}

#[test]
fn test_nlz_u4() {
    assert_eq!(nlz_u4(0), 4);
    assert_eq!(nlz_u4(1), 3);
    assert_eq!(nlz_u4(2), 2);
    assert_eq!(nlz_u4(5), 1);
    assert_eq!(nlz_u4(8), 0);
    assert_eq!(nlz_u4(9), 0);
    assert_eq!(nlz_u4(15), 0);
}

#[test]
fn test_arith_rightshift() {
    let cases: [(i16, i16); 28] = [
        (4, 3),
        (100, 3),
        (10000, 3),
        (10000, 1),
        (-15, 2),
        (-14, 2),
        (-13, 2),
        (-12, 2),
        (-11, 2),
        (-15, 1),
        (-14, 1),
        (-13, 1),
        (-12, 1),
        (-11, 1),
        (-5, 1),
        (-4, 1),
        (-3, 1),
        (-2, 1),
        (-1, 1),
        (-5, 2),
        (-4, 2),
        (-3, 2),
        (-2, 2),
        (-1, 2),
        (0, 1),
        (1, 0),
        (15, 0),
        (0, 4),
    ];
    for (x, s) in cases {
        assert_eq!(arith_rightshift(x, s), x >> s, "{} >> {}", x, s);
    }
}

#[test]
fn leftshift_doubles() {
    assert_eq!(leftshift(3, 0), 3);
    assert_eq!(leftshift(3, 4), 48);
    assert_eq!(leftshift(-5, 3), -40);
}

const SAMPLES: [i32; 11] = [-2147483648, -1024, -256, -255, -1, 0, 1, 255, 256, 1024, 2147483647];

#[test]
fn test_is_negative() {
    for x in SAMPLES {
        assert_eq!(Int32::from_i32(x).is_negative(), x < 0, "{}", x);
    }
}

#[test]
fn test_is_positive() {
    for x in SAMPLES {
        assert_eq!(Int32::from_i32(x).is_positive(), x > 0, "{}", x);
    }
}

#[test]
fn test_is_even() {
    for x in SAMPLES {
        assert_eq!(Int32::from_i32(x).is_even(), x % 2 == 0, "{}", x);
    }
}

#[test]
fn int32_from_i32_round_trips_and_zero() {
    for x in SAMPLES {
        assert_eq!(Int32::from_i32(x).to_i32(), x);
        let mut y = Int32::from_i32(x);
        y.do_zero();
        assert!(y.is_zero());
        assert_eq!(y.to_i32(), 0);
    }
}

#[test]
fn int32_add_wraps_modulo_two_to_the_32() {
    let mut x = Int32::from_i32(2147483647);
    x.do_add(&Int32::from(1));
    assert_eq!(x.to_i32(), -2147483648);

    let mut x = Int32::from_i32(-2147483648);
    x.do_neg();
    assert_eq!(x.to_i32(), -2147483648);
    x.do_abs();
    assert_eq!(x.to_i32(), -2147483648);
}

#[test]
fn int32_cmp_orders_far_apart_values() {
    let big = Int32::from_i32(2147483647);
    let minus_one = Int32::from(-1);
    assert_eq!(big.cmp(&minus_one), 1);
    assert_eq!(minus_one.cmp(&big), -1);
    let low = Int32::from_i32(-2147483648);
    assert_eq!(low.cmp(&big), -1);
    assert_eq!(big.cmp(&low), 1);
    assert_eq!(low.cmp(&low), 0);
    assert_eq!(Int32::from(30000).cmp(&Int32::from(-30000)), 1);
}

#[test]
fn arith_rightshift_past_eight_bits() {
    assert_eq!(arith_rightshift(-32768, 15), -1);
    assert_eq!(arith_rightshift(-32768, 12), -8);
    assert_eq!(arith_rightshift(-1000, 20), -1);
    assert_eq!(arith_rightshift(0, 30), 0);
    assert_eq!(arith_rightshift(32767, 9), 63);
    assert_eq!(arith_rightshift(32767, 14), 1);
    assert_eq!(arith_rightshift(32767, 15), 0);
    assert_eq!(arith_rightshift(1000, 40), 0);
    for x in [1i16, 77, 4096, 32767] {
        for n in 0..16i16 {
            assert_eq!(arith_rightshift(x, n), x >> n, "{} >> {}", x, n);
        }
    }
}

#[test]
fn int32_division_with_long_divisors() {
    check_div(2147483647, 65537);
    check_div(-2147483647, 4097);
    check_div(1999999999, 123456789);
    check_div(-2147483648, 255);
    check_div(-2147483648, -2);
    check_div(16777215, 16777215);
    check_div(2147483647, -2147483648);
    check_div(65535, 256);
}

#[test]
fn int32_shifted_division_and_multiplication() {
    let mut x = Int32::from(3);
    x.do_left_shift_bytes_div(2, &Int32::from(2));
    assert_eq!(x.to_i32(), 98304);

    let mut x = Int32::from_i32(1 << 20);
    x.do_mul_right_shift_bytes(&Int32::from_i32(-(1 << 20)), 3);
    assert_eq!(x.to_i32(), -65536);
}

#[test]
fn int32_sqrt_values() {
    let cases: [(i32, i32); 8] = [
        (0, 0),
        (1, 1),
        (16, 4),
        (225, 15),
        (65536, 256),
        (1000000, 1000),
        (16777216, 4096),
        (2147395600, 46340),
    ];
    for (n, r) in cases {
        let mut x = Int32::from_i32(n);
        x.do_sqrt();
        assert_eq!(x.to_i32(), r, "sqrt {}", n);
    }
}

#[test]
fn int32_sqrt_within_one_of_root() {
    for n in [2i32, 3, 8, 99, 255, 1023, 65535, 1 << 24, 2147483647] {
        let mut x = Int32::from_i32(n);
        x.do_sqrt();
        let r = i64::from(x.to_i32());
        let n = i64::from(n);
        assert!((r - 1) * (r - 1) <= n && n < (r + 1) * (r + 1), "sqrt {} gave {}", n, r);
    }
}
