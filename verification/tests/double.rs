use cephlens::double::Double;

fn double(value: f64) -> Double {
    Double { bits: value.to_bits() }
}

fn samples() -> Vec<f64> {
    let mut out = vec![
        0.0,
        -0.0,
        1.0,
        -1.0,
        0.05,
        0.15,
        0.25,
        0.35,
        0.45,
        2.5,
        1.005,
        99.95,
        999.9995,
        85.0,
        84.99999999999999,
        20.0,
        5.0,
        4.999999999999999,
        0.001,
        1e-7,
        1e-300,
        5e-324,
        2.2250738585072014e-308,
        2.2250738585072011e-308,
        1e15,
        4503599627370496.5,
        9007199254740993.0,
        1e22,
        123456789.125,
        1e300,
        f64::MAX,
        f64::MIN,
        f64::INFINITY,
        f64::NEG_INFINITY,
        f64::NAN,
        -f64::NAN,
    ];
    // A fixed walk over the bit patterns.
    let mut bits: u64 = 0x9e37_79b9_7f4a_7c15;
    for _ in 0..3000 {
        bits = bits.wrapping_mul(6364136223846793005).wrapping_add(1442695040888963407);
        out.push(f64::from_bits(bits));
        out.push((bits >> 20) as f64 / 1024.0);
        out.push((bits >> 44) as f64 / 8.0);
    }
    out
}

#[test]
fn whole_numbers_convert_like_casts() {
    let mut n: u64 = 1;
    for shift in 0..64u32 {
        for near in [n << shift, (n << shift).wrapping_sub(1), (n << shift).wrapping_add(1)] {
            assert_eq!(Double::of_whole(near).bits, (near as f64).to_bits());
        }
        n = n.wrapping_mul(3).wrapping_add(1) | 1;
    }
    for n in [0, 1, 3, u64::MAX, (1 << 53) + 1, (1 << 54) + 2, (1 << 54) + 6] {
        assert_eq!(Double::of_whole(n).bits, (n as f64).to_bits());
    }
}

#[test]
fn quotients_and_products_round_like_floats() {
    for value in samples() {
        if value.is_nan() {
            assert!(f64::from_bits(double(value).over(100).bits).is_nan());
            assert!(f64::from_bits(double(value).times(100).bits).is_nan());
            continue;
        }
        for d in [1u64, 3, 7, 100, 1000, 1024, 1_048_576] {
            assert_eq!(double(value).over(d).bits, (value / d as f64).to_bits(), "{value:e} / {d}");
        }
        for d in [1u64, 3, 7, 100, 1000, 1024] {
            assert_eq!(double(value).times(d).bits, (value * d as f64).to_bits(), "{value:e} * {d}");
        }
    }
}

#[test]
fn comparisons_agree_with_floats() {
    let some = samples().into_iter().take(200).collect::<Vec<_>>();
    for &a in &some {
        assert_eq!(double(a).is_above_zero(), a > 0.0);
        for &b in &some {
            assert_eq!(double(a).not_below(double(b)), a >= b, "{a:e} {b:e}");
            assert_eq!(double(a).ranks_before(double(b)), a.total_cmp(&b).is_lt(), "{a:e} {b:e}");
        }
    }
}

#[test]
fn fixed_places_print_like_floats() {
    for value in samples() {
        assert_eq!(double(value).fixed(1), format!("{value:.1}"));
        assert_eq!(double(value).fixed(3), format!("{value:.3}"));
    }
    for value in samples().into_iter().take(400) {
        assert_eq!(double(value).fixed(2), format!("{value:.2}"));
    }
}

#[test]
fn tenths_of_thousandths_round_to_the_nearest() {
    for n in 1..20_000u64 {
        if n % 100 != 50 {
            let tenths = (n + 50) / 100;
            let shown = format!("{}.{}", tenths / 10, tenths % 10);
            assert_eq!(Double::of_whole(n).over(1000).fixed(1), shown);
        }
    }
    assert_eq!(Double::of_whole(4_503_599_627_370_495).over(1000).fixed(1), "4503599627370.5");
}
