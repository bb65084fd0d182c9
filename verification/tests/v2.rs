use cvssrust::float::Float;
use cvssrust::metric::{value_count, weight, Family};
use cvssrust::score::Severity;
use cvssrust::v2::V2Vector;

fn number(x: Float) -> f64 {
    f64::from_bits(x.to_bits().unwrap())
}

fn weight_of(values: &[u8], m: usize) -> f64 {
    (weight(Family::V2, m, values[m]) as f64) / 1000.0
}

fn impact(values: &[u8]) -> f64 {
    10.41
        * (1.0
            - (1.0 - weight_of(values, 3)) * (1.0 - weight_of(values, 4))
                * (1.0 - weight_of(values, 5)))
}

fn exploitability(values: &[u8]) -> f64 {
    20.0 * weight_of(values, 0) * weight_of(values, 1) * weight_of(values, 2)
}

fn base(values: &[u8]) -> f64 {
    let impact = impact(values);
    let f_impact = if impact == 0.0 { 0.0 } else { 1.176 };
    let input = ((0.6 * impact) + (0.4 * exploitability(values)) - 1.5) * f_impact;
    (input * 10.0).ceil() / 10.0
}

#[test]
fn full_impact_without_friction_scores_ten() {
    let cvss = V2Vector::parse("AV:N/AC:L/Au:N/C:C/I:C/A:C").unwrap();
    assert_eq!(number(cvss.base_score().value()), 10.0);
    assert_eq!(cvss.base_score().tenths(), 100);
    assert_eq!(cvss.base_score().severity(), Severity::Critical);
    assert_eq!(cvss.to_string(), "AV:N/AC:L/Au:N/C:C/I:C/A:C");
}

#[test]
fn sub_scores_follow_their_formulas() {
    let cvss = V2Vector::parse("AV:N/AC:L/Au:N/C:P/I:P/A:P").unwrap();
    // 10.41 * (1 - 0.725^3) and 20 * 1.0 * 0.71 * 0.704
    assert!((number(cvss.impact()) - 6.442_976_718_75).abs() < 1e-12);
    assert!((number(cvss.expoitability()) - 9.9968).abs() < 1e-12);
    // (0.6 * 6.443 + 0.4 * 9.9968 - 1.5) * 1.176 = 7.4845..., rounded up
    assert_eq!(cvss.base_score().tenths(), 75);
}

#[test]
fn no_impact_scores_zero_in_v2() {
    let cvss = V2Vector::parse("AV:L/AC:H/Au:M/C:N/I:N/A:N").unwrap();
    assert_eq!(number(cvss.impact()), 0.0);
    assert_eq!(cvss.base_score().tenths(), 0);
    assert_eq!(cvss.base_score().severity(), Severity::Nil);
}

#[test]
fn temporal_and_environmental_scores_are_zero() {
    let cvss = V2Vector::parse("AV:N/AC:L/Au:N/C:C/I:C/A:C/E:F/RL:OF/RC:C/CDP:H/TD:H/CR:H").unwrap();
    assert_eq!(cvss.temporal_score().tenths(), 0);
    assert_eq!(cvss.environmental_score().tenths(), 0);
    assert_eq!(number(cvss.temporal_score().value()), 0.0);
}

#[test]
fn every_v2_base_vector_scores_as_the_machine_does() {
    let mut values = vec![0u8; 14];
    let mut count = 0;
    for index in 0..729u32 {
        let mut rest = index;
        for m in 0..6 {
            values[m] = (rest % 3) as u8;
            rest /= 3;
        }
        let cvss = V2Vector::new(values.clone()).unwrap();
        assert_eq!(number(cvss.impact()).to_bits(), impact(&values).to_bits());
        assert_eq!(number(cvss.expoitability()).to_bits(), exploitability(&values).to_bits());
        let score = cvss.base_score();
        assert_eq!(number(score.value()), base(&values), "{:?}", values);
        assert!(score.tenths() <= 100);
        count += 1;
    }
    assert_eq!(count, 729);
}

#[test]
fn v2_weights_are_those_of_the_standard() {
    // access vector: local, adjacent network, network
    assert_eq!(weight(Family::V2, 0, 0), 395);
    assert_eq!(weight(Family::V2, 0, 1), 646);
    assert_eq!(weight(Family::V2, 0, 2), 1000);
    // confidentiality impact: none, partial, complete
    assert_eq!(weight(Family::V2, 3, 0), 0);
    assert_eq!(weight(Family::V2, 3, 1), 275);
    assert_eq!(weight(Family::V2, 3, 2), 660);
    // an optional metric that is not defined is neutral
    assert_eq!(weight(Family::V2, 6, 0), 1000);
    assert_eq!(value_count(Family::V2, 9), 6);
}

#[test]
fn new_takes_only_values_of_the_metrics() {
    assert!(V2Vector::new(vec![0; 14]).is_some());
    assert!(V2Vector::new(vec![0; 13]).is_none());
    assert!(V2Vector::new(vec![0; 22]).is_none());
    let mut values = vec![0u8; 14];
    values[0] = 3;
    assert!(V2Vector::new(values).is_none());
    let cvss = V2Vector::new(vec![2, 2, 2, 2, 2, 2, 0, 0, 0, 0, 0, 0, 0, 0]).unwrap();
    assert_eq!(cvss.to_string(), "AV:N/AC:L/Au:N/C:C/I:C/A:C");
    assert_eq!(cvss.clone(), cvss);
    assert_eq!(cvss.values().len(), 14);
}
