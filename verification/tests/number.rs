use cres::number::{Real, HALF_BITS, INFINITY_BITS, NEG_INFINITY_BITS, ONE_BITS, PI_BITS, SIGN_BIT, TWO_PI_BITS};

fn num(x: f64) -> Real {
    Real::from_bits(x.to_bits()).unwrap()
}

fn value(x: Real) -> f64 {
    f64::from_bits(x.to_bits())
}

#[test]
fn sum_of_two_numbers() {
    assert_eq!(value(num(1.5).add(num(2.25))), 3.75);
    assert_eq!(value(num(0.1).add(num(0.2))), 0.1 + 0.2);
    assert_eq!(value(num(f64::MAX).add(num(f64::MAX))), f64::INFINITY);
    assert_eq!(value(num(f64::INFINITY).add(num(-1.))), f64::INFINITY);
}

#[test]
fn difference_of_two_numbers() {
    assert_eq!(value(num(1.5).sub(num(2.25))), -0.75);
    assert_eq!(value(num(0.3).sub(num(0.1))), 0.3 - 0.1);
    assert_eq!(value(num(7.).sub(num(7.))), 0.);
}

#[test]
fn product_of_two_numbers() {
    assert_eq!(value(num(1.5).mul(num(-2.))), -3.);
    assert_eq!(value(num(0.1).mul(num(3.))), 0.1 * 3.);
    assert_eq!(value(num(-3.).mul(num(-3.))), 9.);
    assert_eq!(value(num(0.).mul(num(12.))), 0.);
}

#[test]
fn quotient_of_two_numbers() {
    assert_eq!(value(num(1.0).div(Real::from_count(3))), 1.0 / 3.0);
    assert_eq!(value(num(-1.0).div(num(4.))), -0.25);
    assert_eq!(value(num(1.).div(num(0.))), f64::INFINITY);
    assert!(value(num(-5e-324).div(num(3.))) == 0.);
    assert!(!num(-5e-324).div(num(3.)).is_negative());
}

#[test]
fn root_logarithm_and_angle() {
    assert_eq!(value(num(6.25).sqrt()), 2.5);
    assert_eq!(value(num(2.).sqrt()), 2f64.sqrt());
    assert_eq!(value(num(0.).sqrt()), 0.);
    assert_eq!(value(num(1.).ln()), 0.);
    assert!((value(num(10.).ln()) - 10f64.ln()).abs() < 1e-15);
    assert_eq!(value(num(0.).ln()), f64::NEG_INFINITY);
    assert_eq!(value(num(0.).atan2(num(1.))), 0.);
    assert!((value(num(1.).atan2(num(0.))) - std::f64::consts::FRAC_PI_2).abs() < 1e-15);
    assert!((value(num(0.).atan2(num(-1.))) - std::f64::consts::PI).abs() < 1e-15);
    assert!(value(num(-1e-300).atan2(num(-1.))).abs() <= std::f64::consts::PI);
}

#[test]
fn counts_become_numbers() {
    assert_eq!(value(Real::from_count(0)), 0.);
    assert_eq!(value(Real::from_count(3)), 3.);
    assert_eq!(value(Real::from_count(1 << 40)), (1u64 << 40) as f64);
    assert_eq!(value(Real::from_u64(u64::MAX)), u64::MAX as f64);
}

#[test]
fn order_follows_values() {
    assert!(num(-2.0).lt(num(-1.0)));
    assert!(num(-1.0).lt(num(0.5)));
    assert!(num(0.5).lt(num(f64::INFINITY)));
    assert!(num(f64::NEG_INFINITY).lt(num(f64::MIN)));
    assert!(!num(0.0).lt(num(-0.0)));
    assert!(!num(-0.0).lt(num(0.0)));
    assert!(num(-0.0).same(num(0.0)));
    assert!(num(-0.0).le(num(0.0)));
    assert!(num(1.).le(num(1.)));
    assert!(!num(1.).le(num(0.999)));
    assert!(num(-1e-300).is_negative());
    assert!(!num(-0.0).is_negative());
    assert!(num(-0.0).is_zero());
    assert!(!num(5e-324).is_zero());
    let values = [-3.5, -1., -1e-310, 0., 1e-310, 2., 1e300];
    for a in values {
        for b in values {
            assert_eq!(num(a).lt(num(b)), a < b);
            assert_eq!(num(a).sort_key() < num(b).sort_key(), a < b);
        }
    }
}

#[test]
fn sign_and_magnitude() {
    assert_eq!(value(num(-2.5).abs()), 2.5);
    assert_eq!(value(num(2.5).abs()), 2.5);
    assert_eq!(value(num(2.5).neg()), -2.5);
    assert_eq!(value(num(-2.5).neg()), 2.5);
    assert!(num(1e308).finite());
    assert!(!num(f64::INFINITY).finite());
    assert!(!num(f64::NEG_INFINITY).finite());
}

#[test]
fn nan_is_no_number() {
    assert!(Real::from_bits(f64::NAN.to_bits()).is_none());
    assert!(Real::from_bits((-f64::NAN).to_bits()).is_none());
    assert!(Real::from_bits(INFINITY_BITS + 1).is_none());
    assert!(Real::from_bits(f64::INFINITY.to_bits()).is_some());
    assert!(Real::from_bits(f64::NEG_INFINITY.to_bits()).is_some());
}

#[test]
fn bit_patterns_of_constants() {
    assert_eq!(ONE_BITS, 1f64.to_bits());
    assert_eq!(HALF_BITS, 0.5f64.to_bits());
    assert_eq!(PI_BITS, std::f64::consts::PI.to_bits());
    assert_eq!(TWO_PI_BITS, (2. * std::f64::consts::PI).to_bits());
    assert_eq!(INFINITY_BITS, f64::INFINITY.to_bits());
    assert_eq!(SIGN_BIT, (-0f64).to_bits());
    assert_eq!(value(Real::zero()), 0.);
    assert_eq!(value(Real::one()), 1.);
}

#[test]
fn logarithm_of_zero_is_negative_infinity() {
    assert_eq!(NEG_INFINITY_BITS, f64::NEG_INFINITY.to_bits());
    assert_eq!(num(0.).ln().to_bits(), NEG_INFINITY_BITS);
    assert_eq!(num(-0.).ln().to_bits(), NEG_INFINITY_BITS);
    assert!(!num(0.).ln().finite());
    assert!(num(f64::MIN_POSITIVE).ln().finite());
    assert_eq!(value(num(f64::INFINITY).ln()), f64::INFINITY);
}

#[test]
fn angle_lies_on_the_side_of_the_ordinate() {
    let steps = [0., 5e-324, 1e-300, 0.5, 1., 3., 1e300, f64::INFINITY];
    for &y in &steps {
        for &x in &steps {
            for &(sy, sx) in &[(1., 1.), (1., -1.), (-1., 1.), (-1., -1.)] {
                let (y, x) = (sy * y, sx * x);
                let angle = value(num(y).atan2(num(x)));
                assert!(angle.abs() <= std::f64::consts::PI);
                if y > 0. {
                    assert!(angle >= 0.);
                }
                if y < 0. {
                    assert!(angle <= 0.);
                }
                if x < 0. && y > 0. {
                    assert!(angle > 0. && angle >= std::f64::consts::FRAC_PI_2);
                }
                if x < 0. && y < 0. {
                    assert!(angle < 0. && angle <= -std::f64::consts::FRAC_PI_2);
                }
            }
        }
    }
    assert!((value(num(1.).atan2(num(-1.))) - 0.75 * std::f64::consts::PI).abs() < 1e-15);
    assert!((value(num(-1.).atan2(num(-1.))) + 0.75 * std::f64::consts::PI).abs() < 1e-15);
}

#[test]
fn logarithm_of_a_finite_positive_number_is_finite() {
    for x in [5e-324, f64::MIN_POSITIVE, 1e-300, 0.5, 1., 2., 1e300, f64::MAX] {
        let log = num(x).ln();
        assert!(log.finite());
        assert!(value(log) >= -745. && value(log) <= 710.);
        assert!(Real::from_bits(HALF_BITS).unwrap().mul(log).finite());
    }
    assert!((value(num(5e-324).ln()) + 744.4400719213812).abs() < 1e-9);
    assert!((value(num(f64::MAX).ln()) - 709.782712893384).abs() < 1e-9);
}

#[test]
fn product_with_a_factor_up_to_one_stays_finite() {
    for a in [0., 5e-324, 0.5, -0.5, 1., -1.] {
        for b in [0., 5e-324, -1e-300, 3., f64::MAX, -f64::MAX] {
            let r = num(a).mul(num(b));
            assert!(r.finite());
            assert!(value(r).abs() <= b.abs());
            assert_eq!(value(r), a * b);
        }
    }
}

/// The number `x` times two to the power `scale`, which must be an integer.
fn exact(x: f64, scale: i32) -> i128 {
    let bits = x.to_bits();
    let fraction = (bits & ((1 << 52) - 1)) as i128;
    let exponent = ((bits >> 52) & 0x7ff) as i32;
    let (digits, power) = if exponent == 0 { (fraction, -1074) } else { (fraction + (1 << 52), exponent - 1075) };
    if digits == 0 {
        return 0;
    }
    let shift = power + scale;
    assert!((0..70).contains(&shift));
    let size = digits << shift;
    if bits >> 63 == 1 {
        -size
    } else {
        size
    }
}

#[test]
fn finite_sums_are_rounded_to_the_nearest_number() {
    let numbers: [f64; 9] =
        [0., 1., -1., 3.5, 1e15 + 0.25, -((1u64 << 45) as f64), (1u64 << 40) as f64 + 0.5, 0.1, -1e-5];
    for &a in &numbers {
        for &b in &numbers {
            let r = value(num(a).add(num(b)));
            assert_eq!(r, a + b);
            let sum = exact(a, 70) + exact(b, 70);
            let off = (exact(r, 70) - sum).abs();
            // off * 2^53 <= |sum|
            assert!(off <= sum.abs() >> 53);
        }
    }
    assert!(!num(f64::MAX).add(num(f64::MAX)).finite());
    assert!(!num(f64::INFINITY).add(num(-1.)).finite());
    assert!(!num(2.).add(num(f64::NEG_INFINITY)).finite());
}

#[test]
fn finite_quotients_are_rounded_to_the_nearest_number() {
    let numbers: [f64; 7] = [1., -1., 3.5, 1e9 + 0.25, -123456.75, 7., 0.];
    for &a in &numbers {
        for n in [1usize, 2, 3, 7, 10, 1000, 4097] {
            let count = Real::from_count(n);
            assert_eq!(value(count), n as f64);
            let q = value(num(a).div(count));
            assert_eq!(q, a / n as f64);
            // |n q - a| * 2^53 <= |a|
            let off = (n as i128 * exact(q, 80) - exact(a, 80)).abs();
            assert!(off <= exact(a, 80).abs() >> 53);
        }
    }
    assert_eq!(value(Real::from_u64(1 << 53)), 9007199254740992.);
    // the smallest number is halved to zero or to itself: half a unit off
    let least = f64::from_bits(1);
    assert_eq!(value(num(least).div(Real::from_count(2))), 0.);
    assert_eq!(value(num(3. * least).div(Real::from_count(2))).to_bits(), 2);
}
