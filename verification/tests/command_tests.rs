use mips_workbench::command::{json_escape, parse_limit, LimitError};

#[test]
fn absent_limit_uses_default() {
    assert_eq!(parse_limit(None, 100_000), Ok(100_000));
}

#[test]
fn decimal_limits_are_read() {
    assert_eq!(parse_limit(Some("42"), 7), Ok(42));
    assert_eq!(parse_limit(Some("+9"), 7), Ok(9));
    assert_eq!(parse_limit(Some("18446744073709551615"), 7), Ok(u64::MAX));
    assert_eq!(parse_limit(Some("007"), 1), Ok(7));
}

#[test]
fn malformed_limits_are_refused() {
    assert_eq!(parse_limit(Some(""), 7), Err(LimitError::Empty));
    assert_eq!(parse_limit(Some("+"), 7), Err(LimitError::InvalidDigit));
    assert_eq!(parse_limit(Some("-"), 7), Err(LimitError::InvalidDigit));
    assert_eq!(parse_limit(Some("-1"), 7), Err(LimitError::InvalidDigit));
    assert_eq!(parse_limit(Some("1x"), 7), Err(LimitError::InvalidDigit));
    assert_eq!(parse_limit(Some(" 1"), 7), Err(LimitError::InvalidDigit));
    assert_eq!(parse_limit(Some("18446744073709551616"), 7), Err(LimitError::TooLarge));
    assert_eq!(parse_limit(Some("99999999999999999999x"), 7), Err(LimitError::TooLarge));
    assert_eq!(parse_limit(Some("0"), 7), Err(LimitError::Zero));
    assert_eq!(parse_limit(Some("+000"), 7), Err(LimitError::Zero));
}

#[test]
fn limit_errors_read_like_the_standard_parser() {
    for text in ["", "x", "18446744073709551616"] {
        let expected = text.parse::<u64>().unwrap_err().to_string();
        assert_eq!(parse_limit(Some(text), 1).unwrap_err().to_string(), expected);
    }
    assert_eq!(LimitError::Zero.to_string(), "execution limit must be greater than zero");
}

#[test]
fn limits_agree_with_the_standard_parser() {
    for text in ["1", "+12", "4294967296", "18446744073709551615", "12a", "++1", "1_000"] {
        let ours = parse_limit(Some(text), 5).ok();
        let std_parse = text.parse::<u64>().ok().filter(|value| *value != 0);
        assert_eq!(ours, std_parse, "{text}");
    }
}

#[test]
fn json_escape_escapes_quotes_and_backslashes() {
    assert_eq!(json_escape("examples/fib.asm"), "examples/fib.asm");
    assert_eq!(json_escape("a\"b\\c"), "a\\\"b\\\\c");
    assert_eq!(json_escape(""), "");
    assert_eq!(json_escape("\\\""), "\\\\\\\"");
}

#[test]
fn benchmark_report_has_the_fixed_layout() {
    let report = mips_workbench::command::benchmark_report("ex\"a.asm", 200, 37, 18, 11, "1.6364");
    assert_eq!(
        report,
        "{\n  \"schemaVersion\": 1,\n  \"program\": \"ex\\\"a.asm\",\n  \"iterations\": 200,\n  \"meanMicroseconds\": 37,\n  \"simulatedCycles\": 18,\n  \"retired\": 11,\n  \"cpi\": 1.6364\n}\n"
    );
}
