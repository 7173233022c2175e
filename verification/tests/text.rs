use breezy::text::{parse_i32_text, parses_as_float};

#[test]
fn parse_i32_text_accepts_what_str_parse_accepts() {
    assert_eq!(parse_i32_text("0"), Some(0));
    assert_eq!(parse_i32_text("3600"), Some(3600));
    assert_eq!(parse_i32_text("-3600"), Some(-3600));
    assert_eq!(parse_i32_text("+7"), Some(7));
    assert_eq!(parse_i32_text("007"), Some(7));
    assert_eq!(parse_i32_text("2147483647"), Some(i32::MAX));
    assert_eq!(parse_i32_text("-2147483648"), Some(i32::MIN));
    assert_eq!(parse_i32_text("00000000000000000000042"), Some(42));
}

#[test]
fn parse_i32_text_rejects_what_str_parse_rejects() {
    for s in ["", "-", "+", "2147483648", "-2147483649", "1.5", " 1", "1 ", "+-1", "abc", "99999999999999999999"] {
        assert_eq!(parse_i32_text(s), None, "{:?}", s);
        assert!(s.parse::<i32>().is_err());
    }
}

#[test]
fn parse_i32_text_agrees_with_str_parse() {
    for s in ["12", "-0", "+0", "-12", "2147483647", "-2147483648"] {
        assert_eq!(parse_i32_text(s), s.parse::<i32>().ok(), "{:?}", s);
    }
}

#[test]
fn parses_as_float_agrees_with_str_parse() {
    for s in [
        "0", "1.5", "-0.000", "+3", "1234567890.123", ".5", "5.", "1e10", "1E-3", "2.5e+7",
        "inf", "-inf", "+Infinity", "NaN", "nan", "INF", "", ".", "-", "e5", "1e", "1e+",
        "1.2.3", " 1", "1 ", "abc", "0x10", "1_000", "infin", "nana", "1..2", "--1", "+-1",
    ] {
        assert_eq!(parses_as_float(s), s.parse::<f64>().is_ok(), "{:?}", s);
    }
}
