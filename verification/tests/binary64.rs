use surveillance::binary64::{quotient, Binary64};

fn number(x: f64) -> Binary64 {
    Binary64 { bits: x.to_bits() }
}

#[test]
fn numbers_are_ordered_as_floats() {
    let values = [
        f64::NEG_INFINITY, -1.5, -f64::MIN_POSITIVE, -0.0, 0.0, 5e-324, 0.1, 0.6, 1.0, f64::MAX,
        f64::INFINITY, f64::NAN, -f64::NAN,
    ];
    for a in values {
        assert_eq!(number(a).is_nan(), a.is_nan());
        for b in values {
            assert_eq!(number(a).gt(number(b)), a > b, "{a} > {b}");
            assert_eq!(number(a).ge(number(b)), a >= b, "{a} >= {b}");
        }
    }
}

#[test]
fn quotients_are_those_of_floats() {
    for p in 1..200u64 {
        for q in p..200 {
            assert_eq!(f64::from_bits(quotient(p, q).bits), p as f64 / q as f64);
        }
    }
    let mut seed = 12345u64;
    for _ in 0..20000 {
        seed = seed.wrapping_mul(6364136223846793005).wrapping_add(1442695040888963407);
        let a = (seed >> 33) + 1;
        seed = seed.wrapping_mul(6364136223846793005).wrapping_add(1442695040888963407);
        let b = (seed >> 34) + 1;
        let (p, q) = (a.min(b), a.max(b));
        assert_eq!(f64::from_bits(quotient(p, q).bits), p as f64 / q as f64, "{p} / {q}");
    }
}

#[test]
fn one_tenth_is_rounded_to_the_nearest() {
    assert_eq!(quotient(1, 10).bits, 0x3FB9_9999_9999_999A);
    assert_eq!(quotient(1, 1).bits, 0x3FF0_0000_0000_0000);
}
