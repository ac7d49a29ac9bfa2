use native_connectome::binary64::{
    at_most, clip01, far_from_well, floor_count, less, magnitude, off_well, py_round, HALF, ONE, ZERO,
};

fn samples() -> Vec<f64> {
    let mut out = vec![
        0.0,
        -0.0,
        0.25,
        0.5,
        -0.5,
        0.75,
        1.0,
        -1.0,
        1.5,
        -1.5,
        2.5,
        -2.5,
        3.5,
        1e-15,
        -1e-15,
        1e-30,
        5e-324,
        -5e-324,
        f64::MIN_POSITIVE,
        f64::MAX,
        f64::MIN,
        f64::INFINITY,
        f64::NEG_INFINITY,
        f64::NAN,
        0.49999999999999994,
        0.5000000000000001,
        -0.49999999999999994,
        4503599627370495.5,
        4503599627370496.5,
        9007199254740993.0,
        1e300,
        -7.3,
        123456.5,
        123457.5,
    ];
    let mut seed: u64 = 0x9e37_79b9_7f4a_7c15;
    for _ in 0..400 {
        seed = seed.wrapping_mul(6364136223846793005).wrapping_add(1442695040888963407);
        out.push(f64::from_bits(seed));
        out.push((seed >> 40) as f64 / 1024.0 - 4096.0);
    }
    out
}

fn nearest_even(value: f64) -> f64 {
    if !value.is_finite() {
        return value;
    }
    let floor = value.floor();
    let frac = value - floor;
    if frac < 0.5 {
        floor
    } else if frac > 0.5 {
        floor + 1.0
    } else if floor as i64 % 2 == 0 {
        floor
    } else {
        floor + 1.0
    }
}

#[test]
fn constants_encode_their_values() {
    assert_eq!(ZERO, 0.0f64.to_bits());
    assert_eq!(HALF, 0.5f64.to_bits());
    assert_eq!(ONE, 1.0f64.to_bits());
}

#[test]
fn clips() {
    assert_eq!(clip01(1.5f64.to_bits()), 1.0f64.to_bits());
    assert_eq!(clip01((-0.25f64).to_bits()), 0.0f64.to_bits());
    assert_eq!(clip01(0.75f64.to_bits()), 0.75f64.to_bits());
    assert_eq!(clip01((-0.0f64).to_bits()), (-0.0f64).to_bits());
    assert_eq!(clip01(f64::INFINITY.to_bits()), 1.0f64.to_bits());
    assert_eq!(clip01(f64::NEG_INFINITY.to_bits()), 0.0f64.to_bits());
    assert_eq!(clip01(f64::NAN.to_bits()), f64::NAN.to_bits());
}

#[test]
fn clipping_again_changes_nothing() {
    for x in samples() {
        let once = clip01(x.to_bits());
        assert_eq!(clip01(once), once);
        let value = f64::from_bits(once);
        assert!(value.is_nan() || (0.0..=1.0).contains(&value));
    }
}

#[test]
fn orders_as_the_numbers_do() {
    for x in samples() {
        for y in samples() {
            assert_eq!(less(x.to_bits(), y.to_bits()), x < y, "{} {}", x, y);
            assert_eq!(at_most(x.to_bits(), y.to_bits()), x <= y, "{} {}", x, y);
        }
    }
}

#[test]
fn takes_magnitudes() {
    for x in samples() {
        assert_eq!(magnitude(x.to_bits()), x.abs().to_bits());
    }
}

#[test]
fn rounds_halves_to_even() {
    assert_eq!(py_round(0.5f64.to_bits()), 0.0f64.to_bits());
    assert_eq!(py_round(1.5f64.to_bits()), 2.0f64.to_bits());
    assert_eq!(py_round(2.5f64.to_bits()), 2.0f64.to_bits());
    assert_eq!(py_round((-0.5f64).to_bits()), 0.0f64.to_bits());
    assert_eq!(py_round((-1.5f64).to_bits()), (-2.0f64).to_bits());
    assert_eq!(py_round((-0.0f64).to_bits()), (-0.0f64).to_bits());
    assert_eq!(py_round(f64::INFINITY.to_bits()), f64::INFINITY.to_bits());
    assert_eq!(py_round(f64::NAN.to_bits()), f64::NAN.to_bits());
}

#[test]
fn rounds_to_the_nearest_integer() {
    for x in samples() {
        assert_eq!(py_round(x.to_bits()), nearest_even(x).to_bits(), "{}", x);
    }
}

#[test]
fn a_well_is_its_own_well() {
    for x in samples() {
        let well = py_round(x.to_bits());
        assert_eq!(py_round(well), well);
    }
}

#[test]
fn wells_between_zero_and_one() {
    for k in 0..=1000 {
        let x = k as f64 / 1000.0;
        let well = if x <= 0.5 { 0.0f64 } else { 1.0f64 };
        assert_eq!(py_round(x.to_bits()), well.to_bits());
    }
}

#[test]
fn tells_what_is_off_its_well() {
    for x in samples() {
        assert_eq!(off_well(x.to_bits()), (x - nearest_even(x)).abs() > 0.0, "{}", x);
    }
}

#[test]
fn counts_down() {
    assert_eq!(floor_count(0.0f64.to_bits()), 0);
    assert_eq!(floor_count(0.999f64.to_bits()), 0);
    assert_eq!(floor_count(1.0f64.to_bits()), 1);
    assert_eq!(floor_count(2.75f64.to_bits()), 2);
    assert_eq!(floor_count((-3.0f64).to_bits()), 0);
    assert_eq!(floor_count(f64::NAN.to_bits()), 0);
    assert_eq!(floor_count(f64::INFINITY.to_bits()), usize::MAX);
    assert_eq!(floor_count(f64::NEG_INFINITY.to_bits()), 0);
    assert_eq!(floor_count(1e30f64.to_bits()), usize::MAX);
    for x in samples() {
        assert_eq!(floor_count(x.to_bits()), x.max(0.0).floor() as usize, "{}", x);
    }
}

#[test]
fn tells_what_is_far_from_its_well() {
    assert!(far_from_well(0.3f64.to_bits(), 0.25f64.to_bits()));
    assert!(!far_from_well(0.25f64.to_bits(), 0.25f64.to_bits()));
    assert!(far_from_well(0.7f64.to_bits(), 0.25f64.to_bits()));
    assert!(!far_from_well(0.75f64.to_bits(), 0.25f64.to_bits()));
    assert!(far_from_well(0.9999999999999999f64.to_bits(), 0.0f64.to_bits()));
    assert!(!far_from_well(1.0f64.to_bits(), 0.0f64.to_bits()));
    assert!(!far_from_well((-0.0f64).to_bits(), 0.0f64.to_bits()));
    assert!(!far_from_well(f64::NAN.to_bits(), 0.0f64.to_bits()));
    assert!(!far_from_well(0.5f64.to_bits(), f64::NAN.to_bits()));
    let mut values: Vec<f64> = samples().iter().map(|x| f64::from_bits(clip01(x.to_bits()))).collect();
    values.extend((0..=97).map(|k| k as f64 / 97.0));
    values.extend((0..60).map(|k| 1.0 - 0.5f64.powi(k)));
    for x in values {
        for reach in [0.0, 1e-17, 1e-3, 0.1, 0.25, 0.4999999999999999, 0.5, 0.7, -1.0, f64::NAN] {
            let far = (x - nearest_even(x)).abs() > reach;
            assert_eq!(far_from_well(x.to_bits(), reach.to_bits()), far, "{} {}", x, reach);
        }
    }
}
