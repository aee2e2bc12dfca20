use thermo_control::temperature::Temperature;

fn temp(s: &str) -> Temperature {
    Temperature::parse(s).unwrap()
}

#[test]
fn parses_plain_literals() {
    let t = temp("21.5");
    assert_eq!(t.mantissa, 215);
    assert_eq!(t.scale, 1);

    let t = temp("7");
    assert_eq!(t.mantissa, 7);
    assert_eq!(t.scale, 0);

    let t = temp("-0.25");
    assert_eq!(t.mantissa, -25);
    assert_eq!(t.scale, 2);

    let t = temp("+4.0");
    assert_eq!(t.mantissa, 40);
    assert_eq!(t.scale, 1);

    let t = temp(".5");
    assert_eq!(t.mantissa, 5);
    assert_eq!(t.scale, 1);

    let t = temp("5.");
    assert_eq!(t.mantissa, 5);
    assert_eq!(t.scale, 0);

    let t = temp("0007");
    assert_eq!(t.mantissa, 7);
    assert_eq!(t.scale, 0);
}

#[test]
fn rejects_malformed_literals() {
    assert!(Temperature::parse("").is_none());
    assert!(Temperature::parse("abc").is_none());
    assert!(Temperature::parse("-").is_none());
    assert!(Temperature::parse("+").is_none());
    assert!(Temperature::parse(".").is_none());
    assert!(Temperature::parse("1.2.3").is_none());
    assert!(Temperature::parse("1e5").is_none());
    assert!(Temperature::parse("2,5").is_none());
    assert!(Temperature::parse(" 21.5").is_none());
    assert!(Temperature::parse("21.5 ").is_none());
    assert!(Temperature::parse("--3").is_none());
}

#[test]
fn rejects_out_of_range_literals() {
    // more than 10^18 in the mantissa
    assert!(Temperature::parse("10000000000000000000").is_none());
    // 20 fraction digits
    assert!(Temperature::parse("0.00000000000000000001").is_none());
    // still fine at the edge
    assert!(Temperature::parse("1000000000000000000").is_some());
    assert!(Temperature::parse("0.0000000000000000001").is_some());
}

#[test]
fn formats_back_to_decimal_text() {
    assert_eq!(temp("22.5").to_string(), "22.5");
    assert_eq!(temp("7").to_string(), "7");
    assert_eq!(temp("-0.25").to_string(), "-0.25");
    assert_eq!(temp("0").to_string(), "0");
    assert_eq!(temp("22.50").to_string(), "22.50");
    assert_eq!(temp("100.05").to_string(), "100.05");
    assert_eq!(temp("-3.5").to_string(), "-3.5");
    assert_eq!(temp("+4").to_string(), "4");
}

#[test]
fn print_then_parse_returns_the_same_value() {
    for text in ["22.5", "7", "-0.25", "0", "22.50", "100.05", "-3.5", "0.0000000000000000001"] {
        let t = temp(text);
        assert_eq!(Temperature::parse(&t.to_string()), Some(t));
    }
}

#[test]
fn compares_as_rationals() {
    assert!(temp("18.0").lt(&temp("21.0")));
    assert!(!temp("21.0").lt(&temp("18.0")));
    assert!(!temp("2.5").lt(&temp("2.50")));
    assert!(!temp("2.50").lt(&temp("2.5")));
    assert!(temp("2.49").lt(&temp("2.5")));
    assert!(temp("-1.5").lt(&temp("1")));
    assert!(temp("-2.5").lt(&temp("-2.4")));
    assert!(!temp("3").lt(&temp("3")));
    assert!(!temp("-0.0").lt(&temp("0")));
    assert!(!temp("0").lt(&temp("-0.0")));
}
