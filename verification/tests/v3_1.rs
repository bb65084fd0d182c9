use cvssrust::float::Float;
use cvssrust::metric::{weight, Family};
use cvssrust::score::Severity;
use cvssrust::v3::{MinorVersion, V3Vector};

fn number(x: Float) -> f64 {
    f64::from_bits(x.to_bits().unwrap())
}

fn round_up(minor: MinorVersion, input: f64) -> f64 {
    match minor {
        MinorVersion::V0 => (input * 10.0).ceil() / 10.0,
        MinorVersion::V1 => {
            let int_input = (input * 100_000.0).round() as u64;
            if int_input % 10_000 == 0 {
                (int_input as f64) / 100_000.0
            } else {
                (((int_input / 10_000) as f64).floor() + 1.0) / 10.0
            }
        }
    }
}

fn weight_of(values: &[u8], m: usize) -> f64 {
    (weight(Family::V3, m, values[m]) as f64) / 1000.0
}

fn privileges(level: u8, changed: bool) -> f64 {
    match (level, changed) {
        (0, _) => 0.85,
        (1, false) => 0.62,
        (1, true) => 0.68,
        (_, false) => 0.27,
        (_, true) => 0.5,
    }
}

fn impact(values: &[u8]) -> f64 {
    let iss = 1.0
        - ((1.0 - weight_of(values, 5)) * (1.0 - weight_of(values, 6))
            * (1.0 - weight_of(values, 7)));
    if values[4] == 1 {
        7.52 * (iss - 0.029) - 3.25 * (iss - 0.02).powf(15.0)
    } else {
        6.42 * iss
    }
}

fn exploitability(values: &[u8]) -> f64 {
    8.22 * weight_of(values, 0) * weight_of(values, 1) * privileges(values[2], values[4] == 1)
        * weight_of(values, 3)
}

fn base(minor: MinorVersion, values: &[u8]) -> f64 {
    let impact = impact(values);
    if impact <= 0.0 {
        0.0
    } else if values[4] == 1 {
        round_up(minor, (1.08 * (impact + exploitability(values))).min(10.0))
    } else {
        round_up(minor, (impact + exploitability(values)).min(10.0))
    }
}

fn temporal(minor: MinorVersion, values: &[u8], score: f64) -> f64 {
    round_up(minor, score * weight_of(values, 8) * weight_of(values, 9) * weight_of(values, 10))
}

fn base_values(index: u32) -> Vec<u8> {
    let sizes = [4u32, 2, 3, 2, 2, 3, 3, 3];
    let mut values = vec![0u8; 22];
    let mut rest = index;
    for m in 0..8 {
        values[m] = (rest % sizes[m]) as u8;
        rest /= sizes[m];
    }
    values
}

#[test]
fn test_v31_cve_difference() {
    let vector = "CVSS:3.1/AV:P/AC:H/PR:L/UI:R/S:U/C:L/I:L/A:H/E:H/RL:U/RC:U";
    let cvss = V3Vector::parse(vector).unwrap();
    assert_eq!(cvss.to_string(), String::from(vector));
    assert_eq!(cvss.minor_version(), MinorVersion::V1);
    assert_eq!(number(cvss.base_score().value()), 5.0);
    assert_eq!(cvss.base_score().severity(), Severity::Medium);
    assert_eq!(number(cvss.temporal_score().value()), 4.6);
    assert_eq!(number(cvss.environmental_score().value()), 4.6);
}

#[test]
fn the_minor_versions_differ_where_the_product_lies_just_above_a_tenth() {
    for (base, later, earlier) in [("C:L/I:L/A:H", 46, 47)] {
        let tail = "/E:H/RL:U/RC:U";
        let v0 = V3Vector::parse(&format!("CVSS:3.0/AV:P/AC:H/PR:L/UI:R/S:U/{}{}", base, tail));
        let v1 = V3Vector::parse(&format!("CVSS:3.1/AV:P/AC:H/PR:L/UI:R/S:U/{}{}", base, tail));
        assert_eq!(v0.unwrap().temporal_score().tenths(), earlier);
        assert_eq!(v1.unwrap().temporal_score().tenths(), later);
    }
}

#[test]
fn test_v31_cve_2019_11510() {
    let cvss = V3Vector::parse("CVSS:3.1/AV:N/AC:L/PR:N/UI:N/S:C/C:H/I:H/A:H").unwrap();
    assert_eq!(number(cvss.base_score().value()), 10.0);
    assert_eq!(cvss.base_score().severity(), Severity::Critical);
    assert_eq!(number(cvss.temporal_score().value()), 10.0);
    assert_eq!(number(cvss.environmental_score().value()), 10.0);
}

#[test]
fn a_changed_scope_raises_the_score() {
    let unchanged = V3Vector::parse("CVSS:3.1/AV:N/AC:L/PR:L/UI:N/S:U/C:L/I:L/A:N").unwrap();
    let changed = V3Vector::parse("CVSS:3.1/AV:N/AC:L/PR:L/UI:N/S:C/C:L/I:L/A:N").unwrap();
    assert_eq!(unchanged.base_score().tenths(), 54);
    assert_eq!(changed.base_score().tenths(), 64);
    // privileges required: low weighs 0.62, or 0.68 where the scope changes
    assert!((number(unchanged.expoitability()) - 8.22 * 0.85 * 0.77 * 0.62 * 0.85).abs() < 1e-12);
    assert!((number(changed.expoitability()) - 8.22 * 0.85 * 0.77 * 0.68 * 0.85).abs() < 1e-12);
}

#[test]
fn no_impact_scores_zero_in_v3() {
    for vector in [
        "CVSS:3.0/AV:N/AC:L/PR:N/UI:N/S:U/C:N/I:N/A:N",
        "CVSS:3.1/AV:N/AC:L/PR:N/UI:N/S:C/C:N/I:N/A:N",
    ] {
        let cvss = V3Vector::parse(vector).unwrap();
        assert_eq!(cvss.base_score().tenths(), 0);
        assert_eq!(cvss.base_score().severity(), Severity::Nil);
        assert_eq!(cvss.temporal_score().tenths(), 0);
        assert_eq!(cvss.environmental_score().tenths(), 0);
    }
    let changed = V3Vector::parse("CVSS:3.1/AV:N/AC:L/PR:N/UI:N/S:C/C:N/I:N/A:N").unwrap();
    assert!(number(changed.impact()) < 0.0);
}

#[test]
fn every_v3_base_vector_scores_as_the_machine_does() {
    for minor in [MinorVersion::V0, MinorVersion::V1] {
        for index in 0..2592 {
            let values = base_values(index);
            let cvss = V3Vector::new(minor, values.clone()).unwrap();
            let expected = impact(&values);
            let got = number(cvss.impact());
            assert!((got - expected).abs() <= 4.0 * f64::EPSILON * expected.abs(), "{:?}", values);
            if values[4] == 0 {
                assert_eq!(got.to_bits(), expected.to_bits());
            }
            assert_eq!(number(cvss.expoitability()).to_bits(), exploitability(&values).to_bits());
            let score = base(minor, &values);
            assert_eq!(number(cvss.base_score().value()), score, "{:?}", values);
            assert_eq!(number(cvss.temporal_score().value()), score, "{:?}", values);
            assert_eq!(number(cvss.environmental_score().value()), score, "{:?}", values);
        }
    }
}

#[test]
fn every_temporal_adjustment_scores_as_the_machine_does() {
    for minor in [MinorVersion::V0, MinorVersion::V1] {
        for index in (0..2592).step_by(7) {
            let mut values = base_values(index);
            let score = base(minor, &values);
            for e in 0..5 {
                for rl in 0..5 {
                    for rc in 0..4 {
                        values[8] = e;
                        values[9] = rl;
                        values[10] = rc;
                        let cvss = V3Vector::new(minor, values.clone()).unwrap();
                        assert_eq!(
                            number(cvss.temporal_score().value()),
                            temporal(minor, &values, score),
                            "{:?}",
                            values
                        );
                    }
                }
            }
        }
    }
}

#[test]
fn the_environment_replaces_base_metrics_and_weighs_impacts() {
    // Modified metrics that repeat the base metrics change nothing.
    let plain = V3Vector::parse("CVSS:3.1/AV:N/AC:L/PR:L/UI:N/S:U/C:H/I:L/A:N").unwrap();
    let same = V3Vector::parse(
        "CVSS:3.1/AV:N/AC:L/PR:L/UI:N/S:U/C:H/I:L/A:N/MAV:N/MAC:L/MPR:L/MUI:N/MS:U/MC:H/MI:L/MA:N",
    )
    .unwrap();
    assert_eq!(plain.base_score().tenths(), 71);
    assert_eq!(plain.environmental_score().tenths(), 71);
    assert_eq!(same.environmental_score().tenths(), 71);
    // A local modified attack vector lowers the score, a high requirement raises it.
    let local = V3Vector::parse("CVSS:3.1/AV:N/AC:L/PR:L/UI:N/S:U/C:H/I:L/A:N/MAV:L").unwrap();
    assert_eq!(local.base_score().tenths(), 71);
    assert_eq!(local.environmental_score().tenths(), 61);
    let needed = V3Vector::parse("CVSS:3.1/AV:N/AC:L/PR:L/UI:N/S:U/C:H/I:L/A:N/CR:H").unwrap();
    assert_eq!(needed.environmental_score().tenths(), 85);
    let changed = V3Vector::parse("CVSS:3.1/AV:N/AC:L/PR:L/UI:N/S:U/C:H/I:L/A:N/MS:C").unwrap();
    assert_eq!(changed.environmental_score().tenths(), 85);
}

#[test]
fn omitted_optional_metrics_are_neutral() {
    let cvss = V3Vector::parse("CVSS:3.1/AV:A/AC:H/PR:H/UI:R/S:C/C:L/I:H/A:L").unwrap();
    assert_eq!(cvss.temporal_score(), cvss.base_score());
    assert_eq!(cvss.environmental_score(), cvss.base_score());
    let spelled = V3Vector::parse("CVSS:3.1/AV:A/AC:H/PR:H/UI:R/S:C/C:L/I:H/A:L/E:X/RL:X/MS:X");
    assert_eq!(spelled.unwrap().environmental_score(), cvss.base_score());
}

#[test]
fn v3_weights_are_those_of_the_standard() {
    // attack vector: network, adjacent, local, physical
    assert_eq!(weight(Family::V3, 0, 0), 850);
    assert_eq!(weight(Family::V3, 0, 1), 620);
    assert_eq!(weight(Family::V3, 0, 2), 550);
    assert_eq!(weight(Family::V3, 0, 3), 200);
    // not defined is neutral
    assert_eq!(weight(Family::V3, 8, 0), 1000);
    assert_eq!(weight(Family::V3, 11, 0), 1000);
    // requirements: high, medium, low
    assert_eq!(weight(Family::V3, 11, 1), 1500);
    assert_eq!(weight(Family::V3, 11, 3), 500);
}

fn modified(values: &[u8], m: usize) -> u8 {
    if values[m + 14] == 0 {
        values[m]
    } else {
        values[m + 14] - 1
    }
}

fn modified_weight(values: &[u8], m: usize) -> f64 {
    (weight(Family::V3, m, modified(values, m)) as f64) / 1000.0
}

fn environmental(minor: MinorVersion, values: &[u8]) -> f64 {
    let changed = modified(values, 4) == 1;
    let miss = (1.0
        - ((1.0 - weight_of(values, 11) * modified_weight(values, 5))
            * (1.0 - weight_of(values, 12) * modified_weight(values, 6))
            * (1.0 - weight_of(values, 13) * modified_weight(values, 7))))
    .min(0.915);
    let impact = if changed {
        7.52 * (miss - 0.029) - 3.25 * (miss - 0.02).powf(15.0)
    } else {
        6.42 * miss
    };
    let exploitability = 8.22
        * modified_weight(values, 0)
        * modified_weight(values, 1)
        * privileges(modified(values, 2), changed)
        * modified_weight(values, 3);
    let inner = if impact <= 0.0 {
        0.0
    } else if changed {
        round_up(minor, (1.08 * (impact + exploitability)).min(10.0))
    } else {
        round_up(minor, (impact + exploitability).min(10.0))
    };
    temporal(minor, values, inner)
}

#[test]
fn environments_score_as_the_machine_does() {
    let sizes = [4u64, 2, 3, 2, 2, 3, 3, 3, 5, 5, 4, 4, 4, 4, 5, 3, 4, 3, 3, 4, 4, 4];
    let mut state = 7u64;
    for round in 0..40000 {
        let minor = if round % 2 == 0 { MinorVersion::V0 } else { MinorVersion::V1 };
        let mut values = vec![0u8; 22];
        for m in 0..22 {
            state = state.wrapping_mul(6364136223846793005).wrapping_add(1442695040888963407);
            values[m] = ((state >> 33) % sizes[m]) as u8;
        }
        let cvss = V3Vector::new(minor, values.clone()).unwrap();
        assert_eq!(
            number(cvss.environmental_score().value()),
            environmental(minor, &values),
            "{:?}",
            values
        );
        assert_eq!(
            number(cvss.temporal_score().value()),
            temporal(minor, &values, base(minor, &values))
        );
        let again = V3Vector::parse(&cvss.to_string()).unwrap();
        assert_eq!(again, cvss);
    }
}
