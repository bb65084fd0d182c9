use cvssrust::float::Float;
use cvssrust::score::{round_to_1_decimal, round_up_to_1_decimal, Score, Severity};

fn band(tenths: u8) -> Severity {
    Score::from_tenths(tenths).unwrap().severity()
}

#[test]
fn bands_begin_and_end_where_the_standard_says() {
    assert_eq!(band(0), Severity::Nil);
    assert_eq!(band(1), Severity::Low);
    assert_eq!(band(39), Severity::Low);
    assert_eq!(band(40), Severity::Medium);
    assert_eq!(band(69), Severity::Medium);
    assert_eq!(band(70), Severity::High);
    assert_eq!(band(89), Severity::High);
    assert_eq!(band(90), Severity::Critical);
    assert_eq!(band(100), Severity::Critical);
}

#[test]
fn every_score_has_one_band_and_bands_rise_with_the_score() {
    let rank = |s: Severity| match s {
        Severity::Nil => 0,
        Severity::Low => 1,
        Severity::Medium => 2,
        Severity::High => 3,
        Severity::Critical => 4,
    };
    let mut last = 0;
    for tenths in 0..=100u8 {
        let now = rank(band(tenths));
        assert!(now >= last);
        last = now;
    }
    assert_eq!(last, 4);
}

#[test]
fn a_score_has_at_most_a_hundred_tenths() {
    assert!(Score::from_tenths(100).is_some());
    assert!(Score::from_tenths(101).is_none());
    assert!(Score::from_tenths(255).is_none());
    assert_eq!(Score::from_tenths(81).unwrap().tenths(), 81);
}

#[test]
fn the_value_of_a_score_is_its_tenths_over_ten() {
    for tenths in 0..=100u8 {
        let x = Score::from_tenths(tenths).unwrap().value();
        assert_eq!(x.to_bits(), Some(((tenths as f64) / 10.0).to_bits()));
    }
}

#[test]
fn the_ceiling_rounds_up_whatever_lies_above_a_tenth() {
    assert_eq!(round_to_1_decimal(Float::from_ratio(40, 10)), 40);
    assert_eq!(round_to_1_decimal(Float::from_ratio(401, 100)), 41);
    assert_eq!(round_to_1_decimal(Float::from_ratio(4000001, 1000000)), 41);
    assert_eq!(round_to_1_decimal(Float::from_ratio(0, 1)), 0);
    // 4.6 is held as a number just above 4.6; ten times it is rounded to 46
    assert_eq!(round_to_1_decimal(Float::from_ratio(46, 10)), 46);
    // the product 5.0 * 0.92 is a number further above 4.6
    let product = Float::from_ratio(5, 1).mul(Float::from_ratio(92, 100));
    assert_eq!(round_to_1_decimal(product), 47);
    // below zero the ceiling goes towards zero
    assert_eq!(round_to_1_decimal(Float::from_ratio(401, 100).negated()), -40);
    assert_eq!(round_to_1_decimal(Float::from_ratio(5, 100).negated()), 0);
}

#[test]
fn the_corrected_rounding_keeps_what_lies_just_above_a_tenth() {
    assert_eq!(round_up_to_1_decimal(Float::from_ratio(40, 10)), 40);
    assert_eq!(round_up_to_1_decimal(Float::from_ratio(401, 100)), 41);
    assert_eq!(round_up_to_1_decimal(Float::from_ratio(4000001, 1000000)), 40);
    assert_eq!(round_up_to_1_decimal(Float::from_ratio(400001, 100000)), 41);
    assert_eq!(round_up_to_1_decimal(Float::from_ratio(4000005, 1000000)), 41);
    assert_eq!(round_up_to_1_decimal(Float::from_ratio(0, 1)), 0);
    let product = Float::from_ratio(5, 1).mul(Float::from_ratio(92, 100));
    assert_eq!(round_up_to_1_decimal(product), 46);
}

#[test]
fn the_number_of_a_score_rounds_up_to_the_score() {
    for tenths in 0..=100u8 {
        let x = Score::from_tenths(tenths).unwrap().value();
        assert_eq!(round_to_1_decimal(x), tenths as i64);
        assert_eq!(round_up_to_1_decimal(x), tenths as i64);
    }
}
