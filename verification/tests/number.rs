use sl_interp::number::{parse_int, render_int};

fn parse(text: &str) -> Option<i64> {
    parse_int(&text.chars().collect())
}

#[test]
fn digits_with_an_optional_sign_are_an_integer() {
    assert_eq!(parse("0"), Some(0));
    assert_eq!(parse("42"), Some(42));
    assert_eq!(parse("-42"), Some(-42));
    assert_eq!(parse("+42"), Some(42));
    assert_eq!(parse("007"), Some(7));
    assert_eq!(parse("-0"), Some(0));
}

#[test]
fn anything_else_is_no_integer() {
    assert_eq!(parse(""), None);
    assert_eq!(parse("-"), None);
    assert_eq!(parse("+"), None);
    assert_eq!(parse("+-1"), None);
    assert_eq!(parse("--1"), None);
    assert_eq!(parse("1-"), None);
    assert_eq!(parse("1.0"), None);
    assert_eq!(parse("1e3"), None);
    assert_eq!(parse("12a"), None);
    assert_eq!(parse("a12"), None);
    assert_eq!(parse("١٢"), None);
    assert_eq!(parse("1_000"), None);
}

#[test]
fn the_bounds_are_those_of_sixty_four_bits() {
    assert_eq!(parse("9223372036854775807"), Some(i64::MAX));
    assert_eq!(parse("+9223372036854775807"), Some(i64::MAX));
    assert_eq!(parse("9223372036854775808"), None);
    assert_eq!(parse("-9223372036854775808"), Some(i64::MIN));
    assert_eq!(parse("-9223372036854775809"), None);
    assert_eq!(parse("00000000000000000000000000009"), Some(9));
    assert_eq!(parse("99999999999999999999999999999"), None);
    assert_eq!(parse("-99999999999999999999999999999"), None);
    assert_eq!(parse("18446744073709551616"), None);
    assert_eq!(parse("18446744073709551617"), None);
}

#[test]
fn parsing_agrees_with_the_standard_library() {
    let samples = [
        "", "0", "-0", "+0", "1", "-1", "+1", "10", "-10", "123456789", "-", "+", "++1", "1+",
        " 1", "1 ", "0x10", "9223372036854775807", "9223372036854775808",
        "-9223372036854775808", "-9223372036854775809", "92233720368547758070", "1.5", "abc",
        "٣", "1١", "000", "-000", "+000", "184467440737095516150",
    ];
    for sample in samples {
        assert_eq!(parse(sample), sample.parse::<i64>().ok(), "{:?}", sample);
    }
}

#[test]
fn integers_are_written_in_base_ten() {
    assert_eq!(render_int(0), "0");
    assert_eq!(render_int(7), "7");
    assert_eq!(render_int(10), "10");
    assert_eq!(render_int(-1), "-1");
    assert_eq!(render_int(1234567890), "1234567890");
    assert_eq!(render_int(i64::MAX), "9223372036854775807");
    assert_eq!(render_int(i64::MIN), "-9223372036854775808");
}

#[test]
fn writing_agrees_with_the_standard_library() {
    let mut value: i64 = 1;
    for _ in 0..62 {
        for candidate in [value, -value, value - 1, value + 1, -value - 1] {
            assert_eq!(render_int(candidate), candidate.to_string());
        }
        value *= 2;
    }
}

#[test]
fn a_written_integer_is_read_back() {
    for value in [0, 1, -1, 9, 10, -10, 99, 100, 4096, -4096, i64::MAX, i64::MIN] {
        assert_eq!(parse(&render_int(value)), Some(value));
    }
}
