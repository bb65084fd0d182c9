use cvssrust::float::Float;

fn number(x: Float) -> f64 {
    f64::from_bits(x.to_bits().unwrap())
}

fn float_of(x: f64) -> Float {
    Float::from_bits(x.to_bits()).unwrap()
}

fn same(x: Float, y: f64) -> bool {
    x.to_bits() == Some(y.to_bits())
}

struct Source(u64);

impl Source {
    fn next(&mut self) -> u64 {
        self.0 = self.0.wrapping_mul(6364136223846793005).wrapping_add(1442695040888963407);
        self.0 >> 11
    }

    fn value(&mut self) -> f64 {
        let unit = (self.next() as f64) / ((1u64 << 53) as f64);
        let x = match self.next() % 6 {
            0 => unit,
            1 => unit * 10.0,
            2 => ((self.next() % 101) as f64) / 10.0,
            3 => ((self.next() % 1001) as f64) / 1000.0,
            4 => unit * 1e-20,
            _ => unit * 100000.0,
        };
        if self.next() % 4 == 0 {
            -x
        } else {
            x
        }
    }
}

#[test]
fn quotients_are_those_of_the_machine() {
    for n in 0..3000u32 {
        for d in [1u32, 3, 7, 10, 100, 1000, 4096] {
            assert!(same(Float::from_ratio(n, d), (n as f64) / (d as f64)), "{} / {}", n, d);
        }
    }
    assert!(same(Float::from_ratio(u32::MAX, 1), u32::MAX as f64));
    assert!(same(Float::from_ratio(1, u32::MAX), 1.0 / (u32::MAX as f64)));
}

#[test]
fn a_quotient_is_rounded_to_the_nearest() {
    // 1/10 lies between two neighbours; the upper one is nearer.
    let tenth = Float::from_ratio(1, 10);
    assert_eq!(tenth, Float { neg: false, mant: 0x19_9999_9999_999a, exp: -56 });
    // 1/3 rounds down.
    let third = Float::from_ratio(1, 3);
    assert_eq!(third, Float { neg: false, mant: 0x15_5555_5555_5555, exp: -54 });
}

#[test]
fn products_are_those_of_the_machine() {
    let mut source = Source(1);
    for _ in 0..200000 {
        let x = source.value();
        let y = source.value();
        assert!(same(float_of(x).mul(float_of(y)), x * y), "{:e} * {:e}", x, y);
    }
}

#[test]
fn sums_and_differences_are_those_of_the_machine() {
    let mut source = Source(2);
    for _ in 0..200000 {
        let x = source.value();
        let y = source.value();
        assert!(same(float_of(x).add(float_of(y)), x + y), "{:e} + {:e}", x, y);
        assert!(same(float_of(x).sub(float_of(y)), x - y), "{:e} - {:e}", x, y);
    }
}

#[test]
fn a_tie_goes_to_the_even_significand() {
    // 2^53 + 1 lies halfway between 2^53 and 2^53 + 2.
    let big = Float { neg: false, mant: 1u64 << 52, exp: 1 };
    let one = Float::from_ratio(1, 1);
    assert_eq!(big.add(one), big);
    // 2^53 + 3 lies halfway between 2^53 + 2 and 2^53 + 4.
    let next = Float { neg: false, mant: (1u64 << 52) + 1, exp: 1 };
    assert_eq!(next.add(one), Float { neg: false, mant: (1u64 << 52) + 2, exp: 1 });
}

#[test]
fn a_far_smaller_term_is_absorbed() {
    let one = Float::from_ratio(1, 1);
    let tiny = Float { neg: false, mant: 1u64 << 52, exp: -200 };
    assert_eq!(one.add(tiny), one);
    assert_eq!(one.sub(tiny), one);
    assert_eq!(tiny.sub(one), one.negated());
    assert!(same(one.sub(tiny), 1.0 - 2f64.powi(-148)));
    assert!(same(tiny, 2f64.powi(-148)));
}

#[test]
fn zeros_keep_their_signs() {
    let zero = Float::zero();
    let minus_zero = zero.negated();
    let three = Float::from_ratio(3, 1);
    assert!(same(three.sub(three), 0.0));
    assert!(same(minus_zero.add(minus_zero), -0.0));
    assert!(same(minus_zero.add(zero), 0.0));
    assert!(same(three.negated().mul(zero), -0.0));
    assert!(same(minus_zero.add(three), 3.0));
}

#[test]
fn order_is_that_of_the_machine() {
    let mut source = Source(3);
    for _ in 0..100000 {
        let x = source.value();
        let y = source.value();
        assert_eq!(float_of(x).lt(&float_of(y)), x < y);
        assert!(same(float_of(x).min(float_of(y)), x.min(y)) || x == y);
    }
    assert!(!Float::zero().lt(&Float::zero().negated()));
    assert!(!Float::zero().negated().lt(&Float::zero()));
}

#[test]
fn roundings_to_integers_are_those_of_the_machine() {
    let mut source = Source(4);
    for _ in 0..100000 {
        let x = source.value();
        assert_eq!(float_of(x).ceil() as f64, x.ceil(), "{:e}", x);
        assert_eq!(float_of(x).nearest() as f64, x.round(), "{:e}", x);
    }
    assert_eq!(Float::from_ratio(5, 2).nearest(), 3);
    assert_eq!(Float::from_ratio(5, 2).negated().nearest(), -3);
    assert_eq!(Float::from_ratio(5, 2).ceil(), 3);
    assert_eq!(Float::from_ratio(5, 2).negated().ceil(), -2);
    assert_eq!(Float::from_ratio(7, 1).ceil(), 7);
    assert_eq!(Float { neg: false, mant: 1u64 << 52, exp: -300 }.ceil(), 1);
    assert_eq!(Float { neg: true, mant: 1u64 << 52, exp: -300 }.ceil(), 0);
    assert_eq!(Float { neg: false, mant: 1u64 << 52, exp: -300 }.nearest(), 0);
    assert_eq!(Float { neg: false, mant: 1u64 << 52, exp: 9 }.ceil(), 1i64 << 61);
}

#[test]
fn is_positive_tells_zero_and_negative_apart() {
    assert!(Float::from_ratio(1, 1000).is_positive());
    assert!(!Float::zero().is_positive());
    assert!(!Float::from_ratio(1, 1000).negated().is_positive());
}

#[test]
fn bits_are_those_of_the_machine() {
    assert_eq!(Float::from_ratio(1, 1).to_bits(), Some(1f64.to_bits()));
    assert_eq!(Float::from_ratio(1, 1).to_bits(), Some(0x3ff0_0000_0000_0000));
    assert_eq!(Float::from_ratio(81, 10).to_bits(), Some(8.1f64.to_bits()));
    assert_eq!(Float::from_ratio(81, 10).negated().to_bits(), Some((-8.1f64).to_bits()));
    assert_eq!(Float::zero().to_bits(), Some(0));
    assert_eq!(Float::zero().negated().to_bits(), Some(1u64 << 63));
    let mut source = Source(5);
    for _ in 0..100000 {
        let x = source.value();
        let held = Float::from_bits(x.to_bits()).unwrap();
        assert_eq!(held.to_bits(), Some(x.to_bits()));
        assert_eq!(held.neg, x.is_sign_negative());
        assert!(held.mant == 0 || (held.mant >> 52) == 1);
    }
}

#[test]
fn only_zeros_and_normal_numbers_have_bits() {
    assert_eq!(Float::from_bits(f64::INFINITY.to_bits()), None);
    assert_eq!(Float::from_bits(f64::NEG_INFINITY.to_bits()), None);
    assert_eq!(Float::from_bits(f64::NAN.to_bits()), None);
    assert_eq!(Float::from_bits(1), None);
    assert_eq!(Float::from_bits((f64::MIN_POSITIVE / 2.0).to_bits()), None);
    let least = Float::from_bits(f64::MIN_POSITIVE.to_bits()).unwrap();
    assert_eq!(least, Float { neg: false, mant: 1u64 << 52, exp: -1074 });
    let greatest = Float::from_bits(f64::MAX.to_bits()).unwrap();
    assert_eq!(greatest, Float { neg: false, mant: (1u64 << 53) - 1, exp: 971 });
    // beyond the range, and where the significand has not 53 bits, there are none
    assert_eq!(Float { neg: false, mant: 1u64 << 52, exp: -1075 }.to_bits(), None);
    assert_eq!(Float { neg: false, mant: 1u64 << 52, exp: 972 }.to_bits(), None);
    assert_eq!(Float { neg: false, mant: 1, exp: 0 }.to_bits(), None);
    assert_eq!(Float { neg: false, mant: 1u64 << 53, exp: 0 }.to_bits(), None);
    assert_eq!(Float { neg: false, mant: 0, exp: 1 }.to_bits(), None);
}
