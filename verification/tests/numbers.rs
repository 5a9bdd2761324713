use photo2video::held::{add_to, divide_by, mix, root_of, scale_by, take_from};
use photo2video::natural::Natural;
use photo2video::signed::{from_bits, Signed};
use photo2video::single::{ratio, share_from_bits, Single};

fn num(v: f32) -> Signed {
    from_bits(v.to_bits()).unwrap()
}

fn float(v: Signed) -> f32 {
    let size = v.size.m as f64 * (v.size.e as f64).exp2();
    (if v.neg { -size } else { size }) as f32
}

const VALUES: [f32; 17] = [
    0.0, 1.0, -1.0, 0.1, -0.1, 0.299, 3.0e-7, -2.5e9, 255.0, 254.99998, 1.0000001, -0.33333334, 7.75,
    1.0e-12, 16777216.0, 16777215.0, -1023.9999,
];

#[test]
fn arithmetic_rounds_as_floats_do() {
    for a in VALUES {
        for b in VALUES {
            let (x, y) = (num(a), num(b));
            assert_eq!(float(x.plus(y)), a + b, "{a} + {b}");
            assert_eq!(float(x.minus(y)), a - b, "{a} - {b}");
            assert_eq!(float(x.times(y)), a * b, "{a} * {b}");
            if b != 0.0 {
                assert_eq!(float(x.over(y)), a / b, "{a} / {b}");
                assert_eq!(float(divide_by(x, y)), a / b);
            }
            assert_eq!(float(add_to(x, y)), a + b);
            assert_eq!(float(take_from(x, y)), a - b);
            assert_eq!(float(scale_by(x, y)), a * b);
            assert_eq!(float(mix(x, y, num(0.3))), a + (b - a) * 0.3);
            assert_eq!(x.less(y), a < b);
            assert_eq!(float(x.max(y)), a.max(b));
            assert_eq!(float(x.min(y)), a.min(b));
        }
        assert_eq!(float(num(a).negate()), -a);
        if a >= 0.0 {
            assert_eq!(float(num(a).sqrt()), a.sqrt());
            assert_eq!(float(root_of(num(a))), a.sqrt());
        }
        if a.abs() < 1.0e6 {
            assert_eq!(num(a).round(), a.round() as i64);
        }
        assert_eq!(float(num(a).clamp(num(-1.0), num(1.0))), a.clamp(-1.0, 1.0));
        assert_eq!(float(num(a).into_unit()), a.clamp(0.0, 1.0));
    }
    assert_eq!(float(divide_by(num(3.0), num(0.0))), 0.0);
    assert_eq!(float(root_of(num(-3.0))), 0.0);
}

#[test]
fn what_is_too_small_to_be_held_is_nothing() {
    let mut v = num(1.0e-30);
    for _ in 0..20 {
        v = scale_by(v, num(1.0e-30));
    }
    assert_eq!(v, Signed::zero());
    let mut v = num(-1.0e30);
    for _ in 0..20 {
        v = scale_by(v, num(1.0e30));
    }
    assert_eq!((v.neg, v.size.e), (true, 1000));
}

#[test]
fn floats_come_in_by_their_bits() {
    assert!(from_bits(f32::NAN.to_bits()).is_none());
    assert!(from_bits(f32::NEG_INFINITY.to_bits()).is_none());
    assert_eq!(num(-0.0), Signed::zero());
    for v in [f32::MIN_POSITIVE, 1.0e-45, f32::MAX, -1.5, 0.1] {
        assert_eq!(float(num(v)), v);
    }
    assert!(share_from_bits(1.0f32.to_bits()).is_some());
    assert!(share_from_bits(1.0000001f32.to_bits()).is_none());
    assert!(share_from_bits((-0.5f32).to_bits()).is_none());
}

#[test]
fn fractions_are_the_nearest_floats() {
    for (a, b) in [(1u64, 3u64), (2, 1000), (299, 1000), (45, 100), (65535, 65536), (7, 1), (123456789, 10)] {
        let s = ratio(a, b);
        assert_eq!(float(Signed { neg: false, size: s }), a as f32 / b as f32, "{a}/{b}");
    }
    assert_eq!(Single::of(16777217), Single::of(16777216));
}

#[test]
fn parts_of_numbers_are_whole() {
    for v in [0.0f32, 0.4999, 0.5, 1.5, 2.5, 7.9, 1234.5] {
        let s = num(v).size;
        assert_eq!(s.floor(), v.floor() as u64);
        assert_eq!(s.ceil(), v.ceil() as u64);
        assert_eq!(s.round(), v.round() as u64);
    }
}

#[test]
fn naturals_hold_what_no_word_does() {
    let a = Natural::one().times_power(3, 100);
    let b = Natural::one().times_power(2, 158);
    let c = Natural::one().times_power(2, 159);
    assert!(b.at_most(&a) && a.at_most(&c) && !c.at_most(&a));
    assert!(!Natural::one().times(6).at_most(&Natural::one().times(5)));
    assert!(Natural::one().times(0).at_most(&Natural::one()));
}
