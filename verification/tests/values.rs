use cvssrust::metric::{metric_count, value_count, Family};
use cvssrust::parse::ParseError;
use cvssrust::v2::V2Vector;
use cvssrust::v3::V3Vector;
use cvssrust::values::MetricValue;

#[test]
fn a_metric_value_has_its_codes_and_its_weight() {
    let cvss = V3Vector::parse("CVSS:3.1/AV:A/AC:H/PR:L/UI:R/S:C/C:H/I:L/A:N/RL:W").unwrap();
    let av = cvss.get(0).unwrap();
    assert_eq!(av.family(), Family::V3);
    assert_eq!(av.metric(), 0);
    assert_eq!(av.position(), 1);
    assert_eq!(av.metric_code(), "AV");
    assert_eq!(av.code(), "A");
    assert_eq!(av.thousandths(), 620);
    assert_eq!(av.weight().to_bits(), Some(0.62f64.to_bits()));
    let rl = cvss.get(9).unwrap();
    assert_eq!(rl.metric_code(), "RL");
    assert_eq!(rl.code(), "W");
    assert_eq!(rl.weight().to_bits(), Some(0.97f64.to_bits()));
    // what is not given is not defined, which weighs one
    let e = cvss.get(8).unwrap();
    assert_eq!(e.code(), "X");
    assert_eq!(e.weight().to_bits(), Some(1f64.to_bits()));
    assert!(cvss.get(22).is_none());
    let v2 = V2Vector::parse("AV:A/AC:M/Au:S/C:C/I:P/A:N/CR:H").unwrap();
    assert_eq!(v2.get(0).unwrap().thousandths(), 646);
    assert_eq!(v2.get(3).unwrap().code(), "C");
    assert_eq!(v2.get(3).unwrap().weight().to_bits(), Some(0.66f64.to_bits()));
    assert_eq!(v2.get(11).unwrap().thousandths(), 1510);
    assert_eq!(v2.get(12).unwrap().code(), "ND");
    assert!(v2.get(14).is_none());
}

#[test]
fn a_metric_value_is_read_from_its_code() {
    let h = MetricValue::parse(Family::V3, 5, "H").unwrap();
    assert_eq!(h.position(), 0);
    assert_eq!(h.thousandths(), 560);
    assert_eq!(MetricValue::parse(Family::V3, 5, "N").unwrap().thousandths(), 0);
    assert_eq!(
        MetricValue::parse(Family::V3, 5, "P"),
        Err(ParseError::UnknownValue { metric: String::from("C"), value: String::from("P") })
    );
    assert_eq!(MetricValue::parse(Family::V2, 3, "P").unwrap().thousandths(), 275);
}

#[test]
fn every_listed_value_comes_back_from_its_code() {
    for f in [Family::V2, Family::V3] {
        for m in 0..metric_count(f) {
            for v in 0..value_count(f, m) {
                let value = MetricValue::new(f, m, v).unwrap();
                assert_eq!(MetricValue::parse(f, m, value.code()), Ok(value));
            }
            assert!(MetricValue::new(f, m, value_count(f, m)).is_none());
        }
        assert!(MetricValue::new(f, metric_count(f), 0).is_none());
    }
}
