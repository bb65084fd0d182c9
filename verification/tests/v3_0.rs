use cvssrust::float::Float;
use cvssrust::score::Severity;
use cvssrust::v3::{MinorVersion, V3Vector};

fn number(x: Float) -> f64 {
    f64::from_bits(x.to_bits().unwrap())
}

fn check(vector: &str, base: f64, severity: Severity, temporal: f64, environmental: f64) {
    let cvss = V3Vector::parse(vector).unwrap();
    assert_eq!(cvss.to_string(), String::from(vector));
    assert_eq!(cvss.minor_version(), MinorVersion::V0);
    assert_eq!(number(cvss.base_score().value()), base);
    assert_eq!(cvss.base_score().severity(), severity);
    assert_eq!(number(cvss.temporal_score().value()), temporal);
    assert_eq!(number(cvss.environmental_score().value()), environmental);
}

#[test]
fn test_v3_cve_2020_0601() {
    check("CVSS:3.0/AV:N/AC:L/PR:N/UI:R/S:U/C:H/I:H/A:N", 8.1, Severity::High, 8.1, 8.1);
}

#[test]
fn test_v3_cve_2014_0011() {
    check("CVSS:3.0/AV:N/AC:L/PR:N/UI:N/S:U/C:H/I:H/A:H", 9.8, Severity::Critical, 9.8, 9.8);
}

#[test]
fn test_v3_cve_difference() {
    check(
        "CVSS:3.0/AV:P/AC:H/PR:L/UI:R/S:U/C:L/I:L/A:H/E:H/RL:U/RC:U",
        5.0,
        Severity::Medium,
        4.7,
        4.7,
    );
}

#[test]
fn test_v30_cve_2019_11510() {
    check("CVSS:3.0/AV:N/AC:L/PR:N/UI:N/S:C/C:H/I:H/A:H", 10.0, Severity::Critical, 10.0, 10.0);
}

#[test]
fn test_v30_cve_2019_15001() {
    check("CVSS:3.0/AV:N/AC:L/PR:H/UI:N/S:U/C:H/I:H/A:H", 7.2, Severity::High, 7.2, 7.2);
}

#[test]
fn test_v30_cve_2019_1040() {
    check("CVSS:3.0/AV:N/AC:H/PR:N/UI:N/S:U/C:N/I:H/A:N", 5.9, Severity::Medium, 5.9, 5.9);
}
