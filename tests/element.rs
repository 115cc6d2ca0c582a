use line_protocol::element::{FieldKey, FieldValue, Measurement, TagKey, TagValue};
use line_protocol::error::SetError;
use line_protocol::float::Float;
use line_protocol::traits::{Convert, Format};

fn float(text: &str) -> FieldValue {
    FieldValue::Float(Float::parse(text).unwrap())
}

#[test]
fn test_tag_key_escape_unescape() {
    let key = TagKey::from("some, value=");
    let escaped_key = key.escape();

    assert_eq!(escaped_key.to_string(), "some\\,\\ value\\=");

    let unescaped_key = escaped_key.unescape();
    assert_eq!(unescaped_key.to_string(), "some, value=");
}

#[test]
fn test_tag_value_escape_unescape() {
    let value = TagValue::from("some, value=");
    let escaped_value = value.escape();

    assert_eq!(escaped_value.to_string(), "some\\,\\ value\\=");

    let unescaped_value = escaped_value.unescape();
    assert_eq!(unescaped_value.to_string(), "some, value=");
}

#[test]
fn test_field_key_escape_unescape() {
    let key = FieldKey::from("some, value=");
    let escaped_key = key.escape();

    assert_eq!(escaped_key.to_string(), "some\\,\\ value\\=");

    let unescaped_key = escaped_key.unescape();
    assert_eq!(unescaped_key.to_string(), "some, value=");
}

#[test]
fn test_field_value_escape_unescape() {
    // Only strings are escaped, every other value is as is
    let value = FieldValue::String("{\"foo\": [\"bar=\\baz\"]}".to_string());
    let escaped_value = value.escape();

    assert_eq!(
        escaped_value.to_string(),
        "\"{\\\"foo\\\": [\\\"bar=\\\\baz\\\"]}\""
    );

    let unescaped_value = escaped_value.unescape();
    assert_eq!(unescaped_value.to_string(), "{\"foo\": [\"bar=\\baz\"]}");
}

#[test]
fn test_field_value_parse_float() {
    let parsed = FieldValue::parse_from("10.0").unwrap();
    let expected = float("10.");
    assert_eq!(parsed, expected)
}

#[test]
fn test_field_value_parse_signed_integer() {
    let parsed = FieldValue::parse_from("-10i").unwrap();
    let expected = FieldValue::Integer(-10);
    assert_eq!(parsed, expected);

    let parsed = FieldValue::parse_from("10i").unwrap();
    let expected = FieldValue::Integer(10);
    assert_eq!(parsed, expected)
}

#[test]
fn test_field_value_parse_unsigned_integer() {
    // Only if a number cannot fit in an i64 it will parsed into a u64
    let parsed = FieldValue::parse_from("9223372036854775808i").unwrap();
    let expected = FieldValue::UInteger(9223372036854775808);
    assert_eq!(parsed, expected);
}

#[test]
fn test_field_value_parse_boolean() {
    let true_variants = vec!["t", "T", "true", "True", "TRUE"];
    for variant in true_variants {
        let parsed = FieldValue::parse_from(variant).unwrap();
        let expected = FieldValue::Boolean(true);
        assert_eq!(parsed, expected);
    }

    let false_variants = vec!["f", "F", "false", "False", "FALSE"];
    for variant in false_variants {
        let parsed = FieldValue::parse_from(variant).unwrap();
        let expected = FieldValue::Boolean(false);
        assert_eq!(parsed, expected);
    }
}

#[test]
fn test_field_value_display() {
    assert_eq!(float("10.0").to_string(), "10");
    assert_eq!(float("10.5").to_string(), "10.5");
    assert_eq!(FieldValue::Integer(10).to_string(), "10i");
    assert_eq!(FieldValue::UInteger(10).to_string(), "10i");
    assert_eq!(FieldValue::String("hello".to_string()).to_string(), "hello");
    assert_eq!(FieldValue::Boolean(true).to_string(), "true");
    assert_eq!(FieldValue::Boolean(false).to_string(), "false");
}

#[test]
fn measurement_escapes_space_and_comma_only() {
    let m = Measurement::from("a b,c=d");
    assert_eq!(m.escape().to_string(), "a\\ b\\,c=d");
    assert_eq!(m.escape().unescape().to_string(), "a b,c=d");
}

#[test]
fn integer_kinds_are_told_apart_by_sign() {
    assert!(matches!(
        FieldValue::parse_from("9223372036854775808i").unwrap(),
        FieldValue::UInteger(9223372036854775808)
    ));
    assert!(matches!(
        FieldValue::parse_from("-10i").unwrap(),
        FieldValue::Integer(-10)
    ));
    assert!(matches!(
        FieldValue::parse_from("10i").unwrap(),
        FieldValue::UInteger(10)
    ));
    assert!(matches!(
        FieldValue::parse_from("-9223372036854775808i").unwrap(),
        FieldValue::Integer(i64::MIN)
    ));
    assert!(matches!(
        FieldValue::parse_from("18446744073709551615i").unwrap(),
        FieldValue::UInteger(u64::MAX)
    ));
}

#[test]
fn integer_out_of_range_is_an_error() {
    assert!(matches!(
        FieldValue::parse_from("18446744073709551616i"),
        Err(SetError::InvalidInteger)
    ));
    assert!(matches!(
        FieldValue::parse_from("-9223372036854775809i"),
        Err(SetError::InvalidInteger)
    ));
}

#[test]
fn boolean_words_are_exact() {
    assert!(matches!(FieldValue::parse_from("tRUE").unwrap(), FieldValue::String(_)));
    assert!(matches!(FieldValue::parse_from("yes").unwrap(), FieldValue::String(_)));
}

#[test]
fn quoted_token_stays_a_string() {
    let v = FieldValue::parse_from("\"10i\"").unwrap();
    assert!(matches!(v, FieldValue::String(_)));
    assert_eq!(v.unescape().to_string(), "10i");
}

#[test]
fn float_forms_render_as_plain_decimals() {
    let cases = [
        ("10", "10"),
        ("10.0", "10"),
        ("0.5", "0.5"),
        (".5", "0.5"),
        ("5.", "5"),
        ("-3.250", "-3.25"),
        ("+7", "7"),
        ("1e3", "1000"),
        ("1.5E-3", "0.0015"),
        ("0012.3400", "12.34"),
        ("0.0", "0"),
        ("-0", "-0"),
        ("123e-2", "1.23"),
    ];
    for (token, text) in cases {
        assert_eq!(FieldValue::parse_from(token).unwrap().to_string(), text, "{token}");
        assert!(matches!(FieldValue::parse_from(token).unwrap(), FieldValue::Float(_)));
    }
}

#[test]
fn infinities_and_nan_are_floats() {
    let cases = [
        ("inf", "inf"),
        ("-inf", "-inf"),
        ("+Infinity", "inf"),
        ("-INF", "-inf"),
        ("NaN", "NaN"),
        ("nan", "NaN"),
        ("-NaN", "NaN"),
    ];
    for (token, text) in cases {
        let v = FieldValue::parse_from(token).unwrap();
        assert!(matches!(v, FieldValue::Float(_)), "{token}");
        assert_eq!(v.to_string(), text);
    }
    assert!(matches!(FieldValue::parse_from("info").unwrap(), FieldValue::String(_)));
}

#[test]
fn tokens_ending_in_i_that_are_no_integers_are_strings() {
    for token in ["i", "hi", "1.5i", "-i", "--1i"] {
        assert!(matches!(FieldValue::parse_from(token).unwrap(), FieldValue::String(_)), "{token}");
    }
}

#[test]
fn non_floats_are_not_read_as_floats() {
    for token in ["1e", "e5", ".", "-", "1.2.3", "1e5000", "1x", ""] {
        assert!(Float::parse(token).is_none(), "{token}");
    }
}

#[test]
fn equality_goes_by_rendering() {
    assert!(FieldValue::Integer(10) == FieldValue::UInteger(10));
    assert!(FieldValue::Integer(10) != FieldValue::Integer(11));
    assert!(float("10") != FieldValue::Integer(10));
    assert!(FieldValue::String("true".to_string()) == FieldValue::Boolean(true));
}

#[test]
fn non_string_values_are_not_escaped() {
    assert_eq!(FieldValue::Integer(-3).escape().to_string(), "-3i");
    assert_eq!(FieldValue::Boolean(true).escape().unescape().to_string(), "true");
}

#[test]
fn single_quote_string_is_left_as_it_is() {
    let v = FieldValue::String("\"".to_string());
    assert_eq!(v.unescape().to_string(), "\"");
}
