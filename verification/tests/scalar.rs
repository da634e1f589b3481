use lin_solver::scalar::Scalar;

fn scalar(x: f32) -> Scalar {
    Scalar::from_bits(x.to_bits())
}

fn samples() -> Vec<f32> {
    let mut all = vec![
        0.0,
        -0.0,
        1.0,
        -1.0,
        0.5,
        -0.5,
        2.0,
        3.5,
        -3.5,
        1.0e-45,
        -1.0e-45,
        1.0e-40,
        -1.0e-40,
        f32::MIN_POSITIVE,
        -f32::MIN_POSITIVE,
        f32::EPSILON,
        16777216.0,
        16777218.0,
        -16777216.0,
        1.0e30,
        -1.0e30,
        f32::MAX,
        f32::MIN,
        f32::INFINITY,
        f32::NEG_INFINITY,
        f32::NAN,
        -f32::NAN,
        f32::from_bits(0x7f80_0001),
        f32::from_bits(0xffff_ffff),
        f32::from_bits(0x7f7f_ffff),
        f32::from_bits(0x0080_0000),
        f32::from_bits(0x007f_ffff),
        f32::from_bits(0x0000_0001),
        f32::from_bits(0x8000_0001),
        f32::from_bits(0x3f80_0001),
        f32::from_bits(0x3f7f_ffff),
    ];
    let mut bits: u32 = 0x1234_5678;
    for _ in 0..200 {
        bits = bits.wrapping_mul(1664525).wrapping_add(1013904223);
        all.push(f32::from_bits(bits));
    }
    all
}

#[test]
fn bits_go_in_and_out() {
    assert_eq!(Scalar::from_bits(0x4000_0000).to_bits(), 0x4000_0000);
    assert_eq!(scalar(2.0).bits, 0x4000_0000);
    assert_eq!(f32::from_bits(scalar(-0.5).to_bits()), -0.5);
}

#[test]
fn nan_is_told_from_numbers() {
    for x in samples() {
        assert_eq!(scalar(x).is_nan(), x.is_nan(), "{:?}", x);
    }
}

#[test]
fn positive_is_above_zero() {
    for x in samples() {
        assert_eq!(scalar(x).is_positive(), x > 0.0, "{:?}", x);
    }
}

#[test]
fn negative_is_below_zero() {
    for x in samples() {
        assert_eq!(scalar(x).is_negative(), x < 0.0, "{:?}", x);
    }
}

#[test]
fn less_than_is_the_order_of_the_numbers() {
    let all = samples();
    for &a in &all {
        for &b in &all {
            assert_eq!(scalar(a).is_less_than(&scalar(b)), a < b, "{:?} < {:?}", a, b);
        }
    }
}

#[test]
fn zeros_are_neither_above_nor_below() {
    assert!(!scalar(0.0).is_positive());
    assert!(!scalar(0.0).is_negative());
    assert!(!scalar(-0.0).is_positive());
    assert!(!scalar(-0.0).is_negative());
    assert!(!scalar(-0.0).is_less_than(&scalar(0.0)));
    assert!(!scalar(0.0).is_less_than(&scalar(-0.0)));
}

#[test]
fn infinities_lie_beyond_every_number() {
    assert!(scalar(f32::MAX).is_less_than(&scalar(f32::INFINITY)));
    assert!(scalar(f32::NEG_INFINITY).is_less_than(&scalar(f32::MIN)));
    assert!(scalar(f32::INFINITY).is_positive());
    assert!(scalar(f32::NEG_INFINITY).is_negative());
    assert!(!scalar(f32::INFINITY).is_less_than(&scalar(f32::INFINITY)));
}

#[test]
fn nan_is_not_ordered() {
    let nan = scalar(f32::NAN);
    assert!(!nan.is_positive());
    assert!(!nan.is_negative());
    assert!(!nan.is_less_than(&scalar(1.0)));
    assert!(!scalar(1.0).is_less_than(&nan));
    assert!(!nan.is_less_than(&nan));
}
