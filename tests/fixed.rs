use wide_fixed::fixed::Number;

fn to_f64(n: &Number) -> f64 {
    f64::from(n.to_scaled_i32()) / 65536.0
}

fn check_mul(x: i16, y: i16) {
    let mut result = Number::from(x);
    result.do_mul(&Number::from(y));
    assert_eq!(to_f64(&result), f64::from(x) * f64::from(y), "{} x {}", x, y);
}

fn check_add(x: i16, y: i16) {
    let mut result = Number::from(x);
    result.do_add(&Number::from(y));
    assert_eq!(to_f64(&result), f64::from(x) + f64::from(y), "{} + {}", x, y);
}

fn check_sub(x: i16, y: i16) {
    let mut result = Number::from(x);
    result.do_sub(&Number::from(y));
    assert_eq!(to_f64(&result), f64::from(x) - f64::from(y), "{} - {}", x, y);
}

#[test]
fn test_part() {
    let mut x = Number::from(3);
    let y = Number::from(2);
    x.do_div(&y);
}

#[test]
fn fixed_test_add() {
    check_add(4, 3);
    check_add(100, 3);
    check_add(100, 350);
    check_add(10, 5000);
    check_add(5000, 6000);
    check_add(13082, 10082);
    check_add(16000, 16000);
    check_add(2, -2);
    check_add(4, -2);
    check_add(-4, -3);
    check_add(-4, 1000);
    check_add(1508, -1600);
    check_add(0, -1);
    check_add(-1, 0);
    check_add(0, 0);
    check_add(1, 0);
    check_add(0, 1);
}

#[test]
fn fixed_test_sub() {
    check_sub(4, 3);
    check_sub(100, 3);
    check_sub(100, 350);
    check_sub(10, 5000);
    check_sub(5000, 6000);
    check_sub(13082, 23082);
    check_sub(32600, 32600);
    check_sub(2, -2);
    check_sub(4, -2);
    check_sub(-4, -3);
    check_sub(-4, 1000);
    check_sub(1508, -1600);
    check_sub(0, -1);
    check_sub(-1, 0);
    check_sub(0, 0);
    check_sub(1, 0);
    check_sub(0, 1);
}

#[test]
fn fixed_test_mul() {
    check_mul(4, 3);
    check_mul(100, 3);
    check_mul(40, 38);
    check_mul(10, 3030);
    check_mul(128, 255);
    check_mul(2, -2);
    check_mul(4, -2);
    check_mul(-4, -3);
    check_mul(5082, 0);
    check_mul(0, 5082);
}

#[test]
fn fixed_test_div() {
    let cases: [(i16, i16); 19] = [
        (4, 3),
        (100, 3),
        (10000, 3),
        (10000, 1),
        (5000, 1000),
        (100, 350),
        (10, 5000),
        (10098, 594),
        (10099, 594),
        (10097, 594),
        (13, 2),
        (13, 6),
        (2382, 124),
        (5000, 5000),
        (32600, 32600),
        (2, -2),
        (4, -2),
        (-4, -3),
        (0, 5082),
    ];
    for (x, y) in cases {
        let mut result = Number::from(x);
        result.do_div(&Number::from(y));
        let expected = f64::from(x) / f64::from(y);
        assert!(
            f64::abs(to_f64(&result) - expected) <= 0.01,
            "{} / {} = {} but got {}",
            x,
            y,
            expected,
            to_f64(&result)
        );
    }
}

#[test]
fn fixed_test_is_negative() {
    assert_eq!(Number::from(0).is_negative(), false);

    assert_eq!(Number::from(-1).is_negative(), true);
    assert_eq!(Number::from(-2).is_negative(), true);
    assert_eq!(Number::from(-30000).is_negative(), true);

    assert_eq!(Number::from(1).is_negative(), false);
    assert_eq!(Number::from(2).is_negative(), false);
    assert_eq!(Number::from(30000).is_negative(), false);
}

#[test]
fn fixed_test_neg() {
    let mut x = Number::from(0);
    x.do_neg();
    assert_eq!(to_f64(&x), 0f64);

    let mut x = Number::from(1);
    x.do_neg();
    assert_eq!(to_f64(&x), -1f64);

    let mut x = Number::from(-5);
    x.do_neg();
    assert_eq!(to_f64(&x), 5f64);

    let mut x = Number::from(30000);
    x.do_neg();
    assert_eq!(to_f64(&x), -30000f64);

    let mut x = Number::from(-30000);
    x.do_neg();
    assert_eq!(to_f64(&x), 30000f64);

    let mut x = Number::from(256);
    x.do_neg();
    assert_eq!(to_f64(&x), -256f64);
}

#[test]
fn fixed_test_abs() {
    let mut x = Number::from(0);
    x.do_abs();
    assert_eq!(to_f64(&x), 0f64);

    let mut x = Number::from(1);
    x.do_abs();
    assert_eq!(to_f64(&x), 1f64);

    let mut x = Number::from(-5);
    x.do_abs();
    assert_eq!(to_f64(&x), 5f64);

    let mut x = Number::from(30000);
    x.do_abs();
    assert_eq!(to_f64(&x), 30000f64);

    let mut x = Number::from(-30000);
    x.do_abs();
    assert_eq!(to_f64(&x), 30000f64);
}

#[test]
fn fixed_test_sqrt() {
    for x in [0i16, 1, 9, 15, 144, 147, 256, 1024] {
        let mut result = Number::from(x);
        result.do_sqrt();
        let actual = to_f64(&result);
        let expected = f64::sqrt(f64::from(x));
        assert!(
            f64::abs(actual - expected) / (expected + 0.001) <= 0.01,
            "sqrt({}) = {} but got {}",
            x,
            expected,
            actual
        );
    }
}

#[test]
fn fixed_test_frac_to_i16() {
    let cases: [i16; 26] = [
        -20, -220, -420, -640, -730, -990, -1020, -1220, -1420, -1640, -1730, -1990, -1999, 20, 220,
        420, 640, 730, 990, 1020, 1220, 1420, 1640, 1730, 1990, 1999,
    ];
    for x in cases {
        let mut result = Number::from(x);
        result.do_div(&Number::from(1000));
        let actual = result.frac_to_i16();
        let v = f64::from(x) / 1000.0;
        let expected = (v.fract() * 32768.0) as i16;
        assert_eq!(actual, expected, "fractional part of {} is {}, but got {}", v, expected, actual);
    }
}

#[test]
fn fixed_test_from_i16_frac() {
    for x in [0i16, 250, 1000, 6000, 30292, 32766, -250, -1000, -6000, -30292, -32766] {
        let result = Number::from_i16_frac(x);
        let actual = to_f64(&result);
        let expected = f64::from(x) / 32768.0;
        assert!(
            f64::abs(actual - expected) / (expected + 0.001) <= 0.01,
            "number from {} / 32768 = {} but got {}",
            x,
            expected,
            actual
        );
    }
}

#[test]
fn four_times_three_is_exactly_twelve() {
    let mut x = Number::from(4);
    x.do_mul(&Number::from(3));
    assert_eq!(to_f64(&x), 12.0);
}

#[test]
fn three_over_two_is_close_to_one_and_a_half() {
    let mut x = Number::from(3);
    x.do_div(&Number::from(2));
    assert!(f64::abs(to_f64(&x) - 1.5) <= 0.01);
    assert_eq!(x.to_scaled_i32(), 98304);
}

#[test]
fn square_root_of_nine_is_close_to_three() {
    let mut x = Number::from(9);
    x.do_sqrt();
    assert!(f64::abs(to_f64(&x) - 3.0) / 3.0 <= 0.01);
}

#[test]
fn add_then_sub_gives_back_the_value() {
    let pairs: [(i16, i16); 5] = [(7, -3), (-30000, -30000), (32000, 32000), (0, 1), (-1, 12345)];
    for (a, b) in pairs {
        let x = Number::from(a);
        let y = Number::from(b);
        let mut s = x;
        s.do_add(&y);
        s.do_sub(&y);
        assert_eq!(s.to_scaled_i32(), x.to_scaled_i32());
        let mut d = x;
        d.do_sub(&y);
        d.do_add(&y);
        assert_eq!(d.to_scaled_i32(), x.to_scaled_i32());
    }
}

#[test]
fn negating_twice_and_absolute_values() {
    for a in [0i16, 1, -1, 300, -32768, 32767] {
        let x = Number::from(a);
        let mut n = x;
        n.do_neg();
        let mut nn = n;
        nn.do_neg();
        assert_eq!(nn.to_scaled_i32(), x.to_scaled_i32());
        let mut ax = x;
        ax.do_abs();
        let mut an = n;
        an.do_abs();
        assert_eq!(ax.to_scaled_i32(), an.to_scaled_i32());
    }
}

#[test]
fn compare_follows_value_order() {
    let values = [-300i16, -2, 0, 1, 5, 1000];
    for a in values {
        for b in values {
            let x = Number::from(a);
            let y = Number::from(b);
            let expected = if a < b {
                -1
            } else if a == b {
                0
            } else {
                1
            };
            assert_eq!(x.cmp(&y), expected);
            assert_eq!(y.cmp(&x), -expected);
            assert_eq!(x.is_less_than(&y), a < b);
        }
    }
}

#[test]
fn product_within_one_unit_of_last_place() {
    let mut x = Number::from(3);
    x.do_div(&Number::from(7));
    let mut y = Number::from(-5);
    y.do_div(&Number::from(3));
    let exact = f64::from(x.to_scaled_i32()) * f64::from(y.to_scaled_i32()) / 65536.0;
    let mut p = x;
    p.do_mul(&y);
    assert!(f64::abs(f64::from(p.to_scaled_i32()) - exact) < 1.0);
    assert_eq!(p.to_scaled_i32(), -46809);
}

#[test]
fn quotient_within_one_unit_of_last_place() {
    for (a, b) in [(1i16, 3i16), (-22, 7), (355, -113), (1, 1000)] {
        let mut q = Number::from(a);
        q.do_div(&Number::from(b));
        let exact = f64::from(a) * 65536.0 / f64::from(b);
        assert!(f64::abs(f64::from(q.to_scaled_i32()) - exact) < 1.0);
    }
}

#[test]
fn square_root_samples_within_one_percent() {
    for a in [2i16, 3, 10, 50, 99, 500, 2000] {
        let mut x = Number::from(a);
        x.do_sqrt();
        let expected = f64::sqrt(f64::from(a));
        assert!(f64::abs(to_f64(&x) - expected) / expected <= 0.01, "sqrt {}", a);
    }
}

#[test]
fn pi_and_integer_part() {
    let p = Number::pi();
    assert_eq!(p.to_scaled_i32(), 205887);
    assert!(f64::abs(to_f64(&p) - std::f64::consts::PI) < 0.001);
    assert_eq!(p.to_int32().to_i32(), 3);
    let mut n = Number::from(-7);
    n.do_div(&Number::from(2));
    assert_eq!(n.to_int32().to_i32(), -3);
    assert!(Number::from(1).is_positive());
    assert!(!Number::from(0).is_positive());
    assert!(Number::from(0).is_zero());
}

#[test]
fn compare_far_apart_numbers() {
    let a = Number::from(30000);
    let b = Number::from(-30000);
    assert_eq!(a.cmp(&b), 1);
    assert_eq!(b.cmp(&a), -1);
    assert!(b.is_less_than(&a));
    assert!(!a.is_less_than(&b));
    assert_eq!(Number::from(32767).cmp(&Number::from(-1)), 1);
}

#[test]
fn fraction_of_negative_whole_number_is_zero() {
    assert_eq!(Number::from(-1).frac_to_i16(), 0);
    assert_eq!(Number::from(-300).frac_to_i16(), 0);
    assert_eq!(Number::from(2).frac_to_i16(), 0);
    let mut x = Number::from(-3);
    x.do_div(&Number::from(2));
    assert_eq!(x.frac_to_i16(), -16384);
}

#[test]
fn square_root_within_a_thousandth() {
    for a in [1i16, 2, 7, 100, 1000, 2047] {
        let mut x = Number::from(a);
        x.do_sqrt();
        assert!(f64::abs(to_f64(&x) - f64::sqrt(f64::from(a))) <= 64.0 / 65536.0, "sqrt {}", a);
    }
}

#[test]
fn square_root_of_large_numbers() {
    for a in [2048i16, 2049, 5000, 10000, 30000, 32767] {
        let mut x = Number::from(a);
        x.do_sqrt();
        let expected = f64::sqrt(f64::from(a));
        assert!(f64::abs(to_f64(&x) - expected) <= 256.0 / 65536.0, "sqrt {}", a);
        assert!(f64::abs(to_f64(&x) - expected) / expected <= 0.01);
    }
    let mut x = Number::from(10000);
    x.do_sqrt();
    assert_eq!(to_f64(&x), 100.0);
}
