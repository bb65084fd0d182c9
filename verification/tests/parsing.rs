use cvssrust::metric::Family;
use cvssrust::parse::{parse_metric, parse_value, ParseError};
use cvssrust::v2::V2Vector;
use cvssrust::v3::{MinorVersion, V3Vector};
use cvssrust::vector::{score, Vector};

fn text(s: &str) -> String {
    String::from(s)
}

#[test]
fn an_unknown_value_is_named_with_its_metric() {
    let r = V3Vector::parse("CVSS:3.0/AV:Z/AC:L/PR:N/UI:N/S:U/C:H/I:H/A:H");
    assert_eq!(r, Err(ParseError::UnknownValue { metric: text("AV"), value: text("Z") }));
    let r = V2Vector::parse("AV:N/AC:L/Au:N/C:H/I:P/A:P");
    assert_eq!(r, Err(ParseError::UnknownValue { metric: text("C"), value: text("H") }));
    let r = V3Vector::parse("CVSS:3.1/AV:/AC:L");
    assert_eq!(r, Err(ParseError::UnknownValue { metric: text("AV"), value: text("") }));
    let r = V3Vector::parse("CVSS:3.1/AV:N:L/AC:L");
    assert_eq!(r, Err(ParseError::UnknownValue { metric: text("AV"), value: text("N:L") }));
}

#[test]
fn a_missing_base_metric_is_named() {
    let r = V3Vector::parse("CVSS:3.0/AV:N/AC:L/PR:N/UI:N/S:U/C:H/I:H");
    assert_eq!(r, Err(ParseError::MissingMetric { metric: text("A") }));
    let r = V2Vector::parse("AV:N/AC:L/Au:N/C:C/I:C");
    assert_eq!(r, Err(ParseError::MissingMetric { metric: text("A") }));
}

#[test]
fn the_first_missing_metric_in_canonical_order_is_named() {
    let r = V3Vector::parse("CVSS:3.1/A:H/I:H/AV:N");
    assert_eq!(r, Err(ParseError::MissingMetric { metric: text("AC") }));
    let r = V3Vector::parse("CVSS:3.1/E:H");
    assert_eq!(r, Err(ParseError::MissingMetric { metric: text("AV") }));
}

#[test]
fn a_version_that_is_not_known_is_refused() {
    for input in ["CVSS:4.0/AV:N", "CVSS:3.2/AV:N", "CVSS:3.0", "AV:N/AC:L", "", "cvss:3.0/AV:N"] {
        assert_eq!(V3Vector::parse(input), Err(ParseError::UnsupportedVersion), "{}", input);
    }
    for input in ["CVSS:3.0/AV:N/AC:L/PR:N/UI:N/S:U/C:H/I:H/A:H", "CVSS:", "CVSS:2.0/AV:N"] {
        assert_eq!(V2Vector::parse(input), Err(ParseError::UnsupportedVersion), "{}", input);
    }
    assert_eq!(Vector::parse("CVSS:4.0/AV:N"), Err(ParseError::UnsupportedVersion));
    assert_eq!(Vector::parse("CVSS:2.0/AV:N"), Err(ParseError::UnsupportedVersion));
}

#[test]
fn a_token_without_a_colon_is_malformed() {
    let r = V3Vector::parse("CVSS:3.0/AV:N/ACL/PR:N");
    assert_eq!(r, Err(ParseError::MalformedToken { token: text("ACL") }));
    let r = V3Vector::parse("CVSS:3.0/");
    assert_eq!(r, Err(ParseError::MalformedToken { token: text("") }));
    let r = V2Vector::parse("");
    assert_eq!(r, Err(ParseError::MalformedToken { token: text("") }));
    let r = V2Vector::parse("AV:N/AC:L/Au:N/C:C/I:C/A:C/");
    assert_eq!(r, Err(ParseError::MalformedToken { token: text("") }));
    let r = V2Vector::parse("AV:N//AC:L");
    assert_eq!(r, Err(ParseError::MalformedToken { token: text("") }));
}

#[test]
fn a_metric_of_another_version_is_unknown() {
    let r = V3Vector::parse("CVSS:3.0/AV:N/Au:N");
    assert_eq!(r, Err(ParseError::UnknownMetric { metric: text("Au") }));
    let r = V2Vector::parse("AV:N/PR:N");
    assert_eq!(r, Err(ParseError::UnknownMetric { metric: text("PR") }));
    let r = V2Vector::parse(":N");
    assert_eq!(r, Err(ParseError::UnknownMetric { metric: text("") }));
    let r = V3Vector::parse("CVSS:3.1/av:N");
    assert_eq!(r, Err(ParseError::UnknownMetric { metric: text("av") }));
    let r = V3Vector::parse("CVSS:3.1/\u{c4}V:N");
    assert_eq!(r, Err(ParseError::UnknownMetric { metric: text("\u{c4}V") }));
}

#[test]
fn a_metric_given_twice_is_a_duplicate() {
    let r = V3Vector::parse("CVSS:3.0/AV:N/AC:L/AV:N");
    assert_eq!(r, Err(ParseError::DuplicateMetric { metric: text("AV") }));
    let r = V3Vector::parse("CVSS:3.0/AV:N/AC:L/PR:N/UI:N/S:U/C:H/I:H/A:H/E:X/E:H");
    assert_eq!(r, Err(ParseError::DuplicateMetric { metric: text("E") }));
    let r = V2Vector::parse("AV:N/AV:L");
    assert_eq!(r, Err(ParseError::DuplicateMetric { metric: text("AV") }));
}

#[test]
fn the_first_fault_from_the_left_is_reported() {
    let r = V3Vector::parse("CVSS:3.0/AV:N/AV:Z/XX:1/bad");
    assert_eq!(r, Err(ParseError::UnknownValue { metric: text("AV"), value: text("Z") }));
    let r = V3Vector::parse("CVSS:3.0/AV:N/bad/AV:N");
    assert_eq!(r, Err(ParseError::MalformedToken { token: text("bad") }));
    // a fault in a token comes before any missing metric
    let r = V3Vector::parse("CVSS:3.0/AV:N/XX:1");
    assert_eq!(r, Err(ParseError::UnknownMetric { metric: text("XX") }));
}

#[test]
fn canonical_text_comes_back_unchanged() {
    for input in [
        "CVSS:3.0/AV:N/AC:L/PR:N/UI:R/S:U/C:H/I:H/A:N",
        "CVSS:3.1/AV:P/AC:H/PR:L/UI:R/S:U/C:L/I:L/A:H/E:H/RL:U/RC:U",
        "CVSS:3.1/AV:A/AC:H/PR:H/UI:N/S:C/C:N/I:L/A:H/E:U/RL:O/RC:R/CR:H/IR:M/AR:L/MAV:P/MAC:H/MPR:N/MUI:R/MS:U/MC:N/MI:L/MA:H",
        "CVSS:3.0/AV:L/AC:L/PR:N/UI:N/S:U/C:N/I:N/A:N/MA:H",
    ] {
        assert_eq!(V3Vector::parse(input).unwrap().to_string(), input);
        assert_eq!(Vector::parse(input).unwrap().to_string(), input);
    }
    for input in [
        "AV:N/AC:L/Au:N/C:P/I:P/A:P",
        "AV:L/AC:H/Au:M/C:N/I:N/A:C/E:POC/RL:OF/RC:UC/CDP:LM/TD:M/CR:H/IR:M/AR:L",
        "AV:A/AC:M/Au:S/C:C/I:C/A:C/TD:H",
    ] {
        assert_eq!(V2Vector::parse(input).unwrap().to_string(), input);
        assert_eq!(Vector::parse(input).unwrap().to_string(), input);
    }
}

#[test]
fn tokens_in_any_order_give_the_same_vector() {
    let canonical = "CVSS:3.1/AV:N/AC:L/PR:N/UI:R/S:U/C:H/I:H/A:N/E:F/MAV:L";
    let expected = V3Vector::parse(canonical).unwrap();
    for shuffled in [
        "CVSS:3.1/A:N/I:H/C:H/S:U/UI:R/PR:N/AC:L/AV:N/MAV:L/E:F",
        "CVSS:3.1/MAV:L/AV:N/E:F/AC:L/PR:N/UI:R/S:U/C:H/I:H/A:N",
    ] {
        let cvss = V3Vector::parse(shuffled).unwrap();
        assert_eq!(cvss, expected);
        assert_eq!(cvss.to_string(), canonical);
        assert_eq!(cvss.base_score(), expected.base_score());
        assert_eq!(cvss.environmental_score(), expected.environmental_score());
    }
    let v2 = V2Vector::parse("A:P/I:P/C:P/Au:N/AC:L/AV:N").unwrap();
    assert_eq!(v2.to_string(), "AV:N/AC:L/Au:N/C:P/I:P/A:P");
}

#[test]
fn a_metric_spelled_as_not_defined_is_left_out_of_the_text() {
    let cvss = V3Vector::parse("CVSS:3.0/AV:N/AC:L/PR:N/UI:R/S:U/C:H/I:H/A:N/E:X/RL:O/MS:X");
    assert_eq!(cvss.unwrap().to_string(), "CVSS:3.0/AV:N/AC:L/PR:N/UI:R/S:U/C:H/I:H/A:N/RL:O");
    let v2 = V2Vector::parse("AV:N/AC:L/Au:N/C:P/I:P/A:P/E:ND/TD:ND/RC:C").unwrap();
    assert_eq!(v2.to_string(), "AV:N/AC:L/Au:N/C:P/I:P/A:P/RC:C");
}

#[test]
fn parsing_twice_gives_the_same() {
    let input = "CVSS:3.1/AV:N/AC:H/PR:L/UI:R/S:C/C:H/I:L/A:N/E:P/RC:R/IR:H/MPR:H";
    let first = V3Vector::parse(input).unwrap();
    let second = V3Vector::parse(input).unwrap();
    assert_eq!(first, second);
    assert_eq!(first.base_score(), second.base_score());
    assert_eq!(first.temporal_score(), second.temporal_score());
    assert_eq!(first.environmental_score(), second.environmental_score());
    assert_eq!(V3Vector::parse("CVSS:3.1/AV"), V3Vector::parse("CVSS:3.1/AV"));
}

#[test]
fn the_version_is_told_from_the_beginning_of_the_text() {
    match Vector::parse("CVSS:3.1/AV:N/AC:L/PR:N/UI:N/S:U/C:H/I:H/A:H").unwrap() {
        Vector::V3(v) => assert_eq!(v.minor_version(), MinorVersion::V1),
        Vector::V2(_) => panic!("read as version 2"),
    }
    match Vector::parse("CVSS:3.0/AV:N/AC:L/PR:N/UI:N/S:U/C:H/I:H/A:H").unwrap() {
        Vector::V3(v) => assert_eq!(v.minor_version(), MinorVersion::V0),
        Vector::V2(_) => panic!("read as version 2"),
    }
    match Vector::parse("AV:N/AC:L/Au:N/C:C/I:C/A:C").unwrap() {
        Vector::V2(v) => assert_eq!(v.base_score().tenths(), 100),
        Vector::V3(_) => panic!("read as version 3"),
    }
    let r = Vector::parse("AV:N/AC:L/PR:N");
    assert_eq!(r, Err(ParseError::UnknownMetric { metric: text("PR") }));
}

#[test]
fn codes_are_looked_up_in_the_tables() {
    assert_eq!(parse_metric(Family::V3, "AV"), Ok(0));
    assert_eq!(parse_metric(Family::V3, "MA"), Ok(21));
    assert_eq!(parse_metric(Family::V2, "Au"), Ok(2));
    assert_eq!(
        parse_metric(Family::V2, "PR"),
        Err(ParseError::UnknownMetric { metric: text("PR") })
    );
    assert_eq!(parse_value(Family::V3, 0, "N"), Ok(0));
    assert_eq!(parse_value(Family::V3, 0, "P"), Ok(3));
    assert_eq!(parse_value(Family::V2, 6, "POC"), Ok(2));
    assert_eq!(
        parse_value(Family::V3, 0, "Z"),
        Err(ParseError::UnknownValue { metric: text("AV"), value: text("Z") })
    );
    assert_eq!(
        parse_value(Family::V3, 1, "N"),
        Err(ParseError::UnknownValue { metric: text("AC"), value: text("N") })
    );
}

#[test]
fn values_are_positions_in_the_tables() {
    let cvss = V3Vector::parse("CVSS:3.1/AV:L/AC:H/PR:N/UI:R/S:C/C:H/I:L/A:N/RL:T").unwrap();
    assert_eq!(cvss.value(0), 2);
    assert_eq!(cvss.value(1), 1);
    assert_eq!(cvss.value(4), 1);
    assert_eq!(cvss.value(7), 2);
    assert_eq!(cvss.value(8), 0);
    assert_eq!(cvss.value(9), 3);
    assert_eq!(cvss.values().len(), 22);
    let v2 = V2Vector::parse("AV:A/AC:M/Au:S/C:C/I:P/A:N").unwrap();
    assert_eq!(v2.value(0), 1);
    assert_eq!(v2.value(3), 2);
    assert_eq!(v2.value(13), 0);
}

#[test]
fn the_scores_of_a_text_depend_on_the_text_alone() {
    let scores = score("CVSS:3.0/AV:P/AC:H/PR:L/UI:R/S:U/C:L/I:L/A:H/E:H/RL:U/RC:U").unwrap();
    assert_eq!(scores.base.tenths(), 50);
    assert_eq!(scores.temporal.tenths(), 47);
    assert_eq!(scores.environmental.tenths(), 47);
    let again = score("CVSS:3.0/AV:P/AC:H/PR:L/UI:R/S:U/C:L/I:L/A:H/E:H/RL:U/RC:U").unwrap();
    assert_eq!(scores, again);
    let v2 = score("AV:N/AC:L/Au:N/C:C/I:C/A:C").unwrap();
    assert_eq!(v2.base.tenths(), 100);
    assert_eq!(v2.temporal.tenths(), 0);
    assert_eq!(v2.environmental.tenths(), 0);
    assert_eq!(
        score("CVSS:3.0/AV:Z"),
        Err(ParseError::UnknownValue { metric: text("AV"), value: text("Z") })
    );
    let any = Vector::parse("CVSS:3.1/AV:N/AC:L/PR:N/UI:N/S:U/C:H/I:H/A:H").unwrap();
    assert_eq!(any.base_score().tenths(), 98);
    assert_eq!(any.scores().temporal.tenths(), 98);
}
