use wide_fixed::int30::Int30;

fn check_mul(x: i16, y: i16) {
    let mut result = Int30::from(x);
    result.do_mul(&Int30::from(y));
    assert_eq!(result.to_i32(), i32::from(x) * i32::from(y), "{} x {}", x, y);
}

fn check_add(x: i16, y: i16) {
    let mut result = Int30::from(x);
    result.do_add(&Int30::from(y));
    assert_eq!(result.to_i32(), i32::from(x) + i32::from(y));
}

fn check_sub(x: i16, y: i16) {
    let mut result = Int30::from(x);
    result.do_sub(&Int30::from(y));
    assert_eq!(result.to_i32(), i32::from(x) - i32::from(y));
}

fn check_div(x: i16, y: i16) {
    let mut result = Int30::from(x);
    result.do_div(&Int30::from(y));
    assert_eq!(result.to_i32(), i32::from(x) / i32::from(y));
}

#[test]
fn int30_test_add() {
    check_add(4, 3);
    check_add(100, 3);
    check_add(100, 350);
    check_add(10, 5000);
    check_add(5000, 6000);
    check_add(13082, 23082);
    check_add(32600, 32600);
    check_add(2, -2);
    check_add(4, -2);
    check_add(-4, -3);
    check_add(-4, 1000);
    check_add(1508, -1600);
    check_add(0, -1);
    check_add(-1, 0);
    check_add(0, 0);
    check_add(1, 0);
    check_add(0, 1);
}

#[test]
fn int30_test_sub() {
    check_sub(4, 3);
    check_sub(100, 3);
    check_sub(100, 350);
    check_sub(10, 5000);
    check_sub(5000, 6000);
    check_sub(13082, 23082);
    check_sub(32600, 32600);
    check_sub(2, -2);
    check_sub(4, -2);
    check_sub(-4, -3);
    check_sub(-4, 1000);
    check_sub(1508, -1600);
    check_sub(0, -1);
    check_sub(-1, 0);
    check_sub(0, 0);
    check_sub(1, 0);
    check_sub(0, 1);
}

#[test]
fn int30_test_mul() {
    check_mul(4, 3);
    check_mul(100, 3);
    check_mul(100, 350);
    check_mul(10, 5000);
    check_mul(5000, 5000);
    check_mul(32600, 32600);
    check_mul(2, -2);
    check_mul(4, -2);
    check_mul(-4, -3);
    check_mul(5082, 0);
    check_mul(0, 5082);
}

#[test]
fn test_div() {
    check_div(4, 3);
    check_div(100, 3);
    check_div(100, 350);
    check_div(10, 5000);
    check_div(10098, 594);
    check_div(10099, 594);
    check_div(10097, 594);
    check_div(5000, 5000);
    check_div(32600, 32600);
    check_div(2, -2);
    check_div(4, -2);
    check_div(-4, -3);
    check_div(0, 5082);
}

#[test]
fn int30_test_is_negative() {
    assert_eq!(Int30::from(0).is_negative(), false);

    assert_eq!(Int30::from(-1).is_negative(), true);
    assert_eq!(Int30::from(-2).is_negative(), true);
    assert_eq!(Int30::from(-30000).is_negative(), true);

    assert_eq!(Int30::from(1).is_negative(), false);
    assert_eq!(Int30::from(2).is_negative(), false);
    assert_eq!(Int30::from(30000).is_negative(), false);
}

#[test]
fn int30_test_neg() {
    let mut x = Int30::from(0);
    x.do_neg();
    assert_eq!(x.to_i32(), 0);

    let mut x = Int30::from(1);
    x.do_neg();
    assert_eq!(x.to_i32(), -1);

    let mut x = Int30::from(-5);
    x.do_neg();
    assert_eq!(x.to_i32(), 5);

    let mut x = Int30::from(30000);
    x.do_neg();
    assert_eq!(x.to_i32(), -30000);

    let mut x = Int30::from(-30000);
    x.do_neg();
    assert_eq!(x.to_i32(), 30000);

    let mut x = Int30::from(256);
    x.do_neg();
    assert_eq!(x.to_i32(), -256);
}

#[test]
fn int30_test_abs() {
    let mut x = Int30::from(0);
    x.do_abs();
    assert_eq!(x.to_i32(), 0);

    let mut x = Int30::from(1);
    x.do_abs();
    assert_eq!(x.to_i32(), 1);

    let mut x = Int30::from(-5);
    x.do_abs();
    assert_eq!(x.to_i32(), 5);

    let mut x = Int30::from(30000);
    x.do_abs();
    assert_eq!(x.to_i32(), 30000);

    let mut x = Int30::from(-30000);
    x.do_abs();
    assert_eq!(x.to_i32(), 30000);
}

#[test]
fn int30_test_right_shift() {
    let mut x = Int30::from(0);
    x.do_right_shift_bytes(1);
    assert_eq!(x.to_i32(), 0);

    let mut x = Int30::from(1);
    x.do_right_shift_bytes(1);
    assert_eq!(x.to_i32(), 0);

    let mut x = Int30::from(-5);
    x.do_right_shift_bytes(1);
    assert_eq!(x.to_i32(), 0);

    let mut x = Int30::from(30000);
    x.do_right_shift_bytes(1);
    assert_eq!(x.to_i32(), 117);

    let mut x = Int30::from(-30000);
    x.do_right_shift_bytes(1);
    assert_eq!(x.to_i32(), -117);

    let mut x = Int30::from(256);
    let y = x;
    x.do_mul(&y);
    x.do_mul(&y);
    x.do_right_shift_bytes(1);
    assert_eq!(x.to_i32(), 65536);
    x.do_right_shift_bytes(1);
    assert_eq!(x.to_i32(), 256);
    x.do_right_shift_bytes(1);
    assert_eq!(x.to_i32(), 1);

    let mut x = Int30::from(256);
    x.do_mul(&y);
    x.do_mul(&y);
    x.do_right_shift_bytes(2);
    assert_eq!(x.to_i32(), 256);

    let mut x = Int30::from(256);
    x.do_mul(&y);
    x.do_mul(&y);
    x.do_right_shift_bytes(3);
    assert_eq!(x.to_i32(), 1);
}

#[test]
fn int30_test_left_shift() {
    let mut x = Int30::from(0);
    x.do_left_shift_bytes(1);
    assert_eq!(x.to_i32(), 0);

    let mut x = Int30::from(1);
    x.do_left_shift_bytes(1);
    assert_eq!(x.to_i32(), 256);

    let mut x = Int30::from(-5);
    x.do_left_shift_bytes(1);
    assert_eq!(x.to_i32(), -1280);

    let mut x = Int30::from(30000);
    x.do_left_shift_bytes(1);
    assert_eq!(x.to_i32(), 7680000);

    let mut x = Int30::from(-30000);
    x.do_left_shift_bytes(1);
    assert_eq!(x.to_i32(), -7680000);

    let mut x = Int30::from(1);
    x.do_left_shift_bytes(1);
    assert_eq!(x.to_i32(), 256);
    x.do_left_shift_bytes(1);
    assert_eq!(x.to_i32(), 65536);
    x.do_left_shift_bytes(1);
    assert_eq!(x.to_i32(), 16777216);

    let mut x = Int30::from(1);
    x.do_left_shift_bytes(2);
    assert_eq!(x.to_i32(), 65536);

    let mut x = Int30::from(1);
    x.do_left_shift_bytes(3);
    assert_eq!(x.to_i32(), 16777216);
}

#[test]
fn int30_left_shift_div_keeps_fraction() {
    let mut x = Int30::from(3);
    x.do_left_shift_bytes_div(2, &Int30::from(2));
    assert_eq!(x.to_i32(), 98304);

    let mut x = Int30::from(-7);
    x.do_left_shift_bytes_div(1, &Int30::from(2));
    assert_eq!(x.to_i32(), -896);
}

#[test]
fn int30_mul_right_shift_and_sqrt() {
    let mut x = Int30::from(1000);
    x.do_mul_right_shift_bytes(&Int30::from(-512), 1);
    assert_eq!(x.to_i32(), -2000);

    let mut x = Int30::from(10000);
    x.do_sqrt();
    assert_eq!(x.to_i32(), 100);

    let mut x = Int30::from(0);
    x.do_sqrt();
    assert_eq!(x.to_i32(), 0);
    assert!(x.is_zero());
}

#[test]
fn int30_sqrt_seeded_and_within_one_of_root() {
    for n in [1i16, 2, 3, 99, 255, 10000, 32767] {
        let mut x = Int30::from(n);
        x.do_sqrt();
        let r = i64::from(x.to_i32());
        let n = i64::from(n);
        assert!((r - 1) * (r - 1) <= n && n < (r + 1) * (r + 1), "sqrt {} gave {}", n, r);
    }
    let mut big = Int30::from(32767);
    big.do_mul(&Int30::from(32767));
    big.do_sqrt();
    assert_eq!(big.to_i32(), 32767);
}

#[test]
fn int30_long_division_signs() {
    let mut x = Int30::from(30000);
    x.do_mul(&Int30::from(30000));
    x.do_div(&Int30::from(-7001));
    assert_eq!(x.to_i32(), 900000000 / -7001);

    let mut x = Int30::from(-32768);
    x.do_mul(&Int30::from(1000));
    x.do_div(&Int30::from(4097));
    assert_eq!(x.to_i32(), -32768000 / 4097);

    let mut x = Int30::from(-5);
    x.do_left_shift_bytes_div(3, &Int30::from(-3));
    assert_eq!(x.to_i32(), (-5 * 16777216) / -3);
}
