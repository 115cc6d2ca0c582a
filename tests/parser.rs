use line_protocol::element::FieldValue;
use line_protocol::error::{LineProtocolError, ParseError, SetError};
use line_protocol::float::Float;
use line_protocol::LineProtocol;

fn text(s: &str) -> FieldValue {
    FieldValue::String(s.to_string())
}

fn float(s: &str) -> FieldValue {
    FieldValue::Float(Float::parse(s).unwrap())
}

fn parse_error(line: &str) -> ParseError {
    match LineProtocol::parse_line(line) {
        Err(LineProtocolError::ParserError(e)) => e,
        Err(e) => panic!("expected a parse error, got {e:?}"),
        Ok(_) => panic!("expected a parse error for {line:?}"),
    }
}

#[test]
fn test_parser_valid_missing_tags() {
    let line = "measurement field=\"value\" 1729270461612452700";
    let result = LineProtocol::parse_line(&line);
    assert!(result.is_ok());

    let parsed = result.unwrap();
    let expected = LineProtocol::new("measurement")
        .add_field("field", text("value"))
        .with_timestamp(1729270461612452700i64);
    assert_eq!(parsed, expected)
}

#[test]
fn test_parser_valid_missing_timestamp() {
    let line = "measurement,tag=value field=\"value\"";
    let result = LineProtocol::parse_line(&line);
    assert!(result.is_ok());

    let parsed = result.unwrap();
    let expected = LineProtocol::new("measurement")
        .add_tag("tag", "value")
        .add_field("field", text("value"));
    assert_eq!(parsed, expected)
}

#[test]
fn test_parser_valid() {
    let line = "measurement,tag1=value,tag2=value field1=\"value\",field2=\"{\\\"foo\\\": \
                \\\"bar\\\"}\",field3=\"[\\\"hello\\\", \
                \\\"world\\\"]\",field4=true,field5=10,field6=10i,field7=0.5 \
                1729270461612452700";
    let result = LineProtocol::parse_line(&line);
    assert!(result.is_ok());

    let parsed = result.unwrap();
    let expected = LineProtocol::new("measurement")
        .add_tag("tag1", "value")
        .add_tag("tag2", "value")
        .add_field("field", text("value"))
        .add_field("field2", text("{\"foo\": \"bar\"}"))
        .add_field("field3", text("[\"hello\", \"world\"]"))
        .add_field("field4", FieldValue::Boolean(true))
        .add_field("field5", float("10.0"))
        .add_field("field6", FieldValue::Integer(10))
        .add_field("field7", float("0.5"))
        .with_timestamp(1729270461612452700i64);
    assert_eq!(parsed, expected)
}

#[test]
fn test_parser_comment_line_is_err() {
    let line = "# this is a comment line";
    let result = LineProtocol::parse_line(&line);
    assert!(result.is_err())
}

#[test]
fn test_parser_empty_line_is_err() {
    let line = "";
    let result = LineProtocol::parse_line(&line);
    assert!(result.is_err())
}

#[test]
fn test_parser_missing_measurement_is_err() {
    let line = ",tag=value field=\"value\"";
    let result = LineProtocol::parse_line(&line);
    assert!(result.is_err())
}

#[test]
fn test_parser_missing_field_set_is_err() {
    let line = "measurement,tag=value 1729270461612452800";
    let result = LineProtocol::parse_line(&line);
    assert!(result.is_err())
}

#[test]
fn test_parser_missing_uneven_tag_set_is_err() {
    let line = "measurement,tag= 1729270461612452800";
    let result = LineProtocol::parse_line(&line);
    assert!(result.is_err())
}

#[test]
fn test_parser_missing_uneven_field_set_is_err() {
    let line = "measurement field= 1729270461612452800";
    let result = LineProtocol::parse_line(&line);
    assert!(result.is_err())
}

#[test]
fn test_parser_missing_invalid_timestamp_is_err() {
    let line = "measurement field=\"value\" timestamp";
    let result = LineProtocol::parse_line(&line);
    assert!(result.is_err())
}

#[test]
fn each_parse_error_has_an_input() {
    assert_eq!(parse_error("  # note"), ParseError::CommentLine);
    assert_eq!(parse_error(" \t "), ParseError::EmptyLine);
    assert_eq!(parse_error(",t=v f=1"), ParseError::MissingMeasurement);
    assert_eq!(parse_error("m,t=v"), ParseError::MissingFields);
    assert_eq!(parse_error("m,t=v 17"), ParseError::InvalidSet(SetError::UnevenValues));
    assert_eq!(parse_error("m"), ParseError::MissingFields);
    assert_eq!(parse_error("m,t= f=1"), ParseError::InvalidSet(SetError::UnevenValues));
    assert_eq!(parse_error("m f"), ParseError::InvalidSet(SetError::UnevenValues));
    assert_eq!(
        parse_error("m f=99999999999999999999i"),
        ParseError::InvalidSet(SetError::InvalidInteger)
    );
    assert_eq!(parse_error("m f=1 12x"), ParseError::InvalidTimestamp);
    assert_eq!(parse_error("m f=1 9223372036854775808"), ParseError::InvalidTimestamp);
}

#[test]
fn parsed_values_and_escapes() {
    let p = LineProtocol::parse_line(
        "my\\ m\\,x,t\\ k=a\\=b\\,c f\\=1=\"say \\\"hi\\\", \\\\ bye\",n=-3i,u=3i,b=F,x=1.50 -12",
    )
    .unwrap();
    assert_eq!(p.get_measurement().to_string(), "my m,x");
    assert_eq!(p.get_tag("t k").unwrap().to_string(), "a=b,c");
    assert_eq!(p.get_field("f=1").unwrap().to_string(), "say \"hi\", \\ bye");
    assert!(matches!(p.get_field("n").unwrap(), FieldValue::Integer(-3)));
    assert!(matches!(p.get_field("u").unwrap(), FieldValue::UInteger(3)));
    assert!(matches!(p.get_field("b").unwrap(), FieldValue::Boolean(false)));
    assert_eq!(p.get_field("x").unwrap().to_string(), "1.5");
    assert_eq!(p.get_timestamp(), Some(-12));
}

#[test]
fn timestamp_text_is_trimmed() {
    let p = LineProtocol::parse_line("m f=1  +42 ").unwrap();
    assert_eq!(p.get_timestamp(), Some(42));
}

#[test]
fn a_bare_word_is_a_string() {
    let p = LineProtocol::parse_line("m f=hello").unwrap();
    assert!(matches!(p.get_field("f").unwrap(), FieldValue::String(_)));
    assert_eq!(p.get_field("f").unwrap().to_string(), "hello");
}

#[test]
fn no_tag_set_differs_from_an_empty_one() {
    let a = LineProtocol::parse_line("m f=1").unwrap();
    assert!(a.tags.is_none());
    let b = LineProtocol::new("m").add_tag("t", "v").delete_tag("t");
    assert!(!(a == b));
}

#[test]
fn equality_ignores_fields_but_not_tags_or_time() {
    let a = LineProtocol::parse_line("m,t=v,u=w f=1 5").unwrap();
    let b = LineProtocol::parse_line("m,u=w,t=v g=2 5").unwrap();
    let c = LineProtocol::parse_line("m,u=w,t=x f=1 5").unwrap();
    let d = LineProtocol::parse_line("m,u=w,t=v f=1 6").unwrap();
    assert!(a == b);
    assert!(!(a == c));
    assert!(!(a == d));
}

#[test]
fn batch_merges_points_that_are_the_same() {
    let parsed = LineProtocol::parse_vec(vec!["m,t=v f=\"a\"", "m,t=v f2=\"b\""]).unwrap();
    assert_eq!(parsed.len(), 1);
    assert_eq!(parsed[0].get_field("f").unwrap().to_string(), "a");
    assert_eq!(parsed[0].get_field("f2").unwrap().to_string(), "b");
    assert_eq!(parsed[0].fields.len(), 2);
}

#[test]
fn batch_later_values_win_and_other_points_are_kept() {
    let lines = "m,t=v f=1i 10\n\n# comment\n  \nm,t=w f=2i 10\r\nm,t=v f=3i,g=4i 10\n";
    let parsed = LineProtocol::parse_lines(lines).unwrap();
    assert_eq!(parsed.len(), 2);
    assert_eq!(parsed[0].build().unwrap(), "m,t=v f=3i,g=4i 10");
    assert_eq!(parsed[1].build().unwrap(), "m,t=w f=2i 10");
}

#[test]
fn batch_stops_at_the_first_bad_line() {
    let result = LineProtocol::parse_vec(vec!["m f=1", "m f=", "m f=2"]);
    assert!(matches!(
        result,
        Err(LineProtocolError::ParserError(ParseError::InvalidSet(SetError::UnevenValues)))
    ));
    assert_eq!(LineProtocol::parse_lines("").unwrap().len(), 0);
}

#[test]
fn built_line_reads_back() {
    let point = LineProtocol::new("measurement")
        .add_field("field", text("value"))
        .with_timestamp(1729270461612452700i64);
    let line = point.build().unwrap();
    assert_eq!(line, "measurement field=\"value\" 1729270461612452700");
    let back = LineProtocol::parse_line(&line).unwrap();
    assert_eq!(back.get_measurement().to_string(), "measurement");
    assert_eq!(back.get_field("field").unwrap().to_string(), "value");
    assert_eq!(back.get_timestamp(), Some(1729270461612452700));
    assert!(back == point);
}

#[test]
fn round_trip_of_a_full_point() {
    let point = LineProtocol::new("cpu load,x")
        .add_tag("host name", "a=b")
        .add_tag("dc", "west,1")
        .add_field("msg", text("he said \"ok\", then = left"))
        .add_field("n", FieldValue::Integer(-7))
        .add_field("u", FieldValue::UInteger(u64::MAX))
        .add_field("ok", FieldValue::Boolean(true))
        .add_field("r", float("-0.125"))
        .with_timestamp(-1);
    let line = point.build().unwrap();
    let back = LineProtocol::parse_line(&line).unwrap();
    assert!(back == point);
    assert_eq!(back.fields.len(), point.fields.len());
    for key in ["msg", "n", "u", "ok", "r"] {
        assert!(back.get_field(key).unwrap() == point.get_field(key).unwrap(), "{key}");
    }
    assert_eq!(back.build().unwrap(), line);
}

#[test]
fn one_integer_field_reads_back() {
    for (value, ts) in [
        (FieldValue::Integer(-42), Some(1700000000i64)),
        (FieldValue::UInteger(u64::MAX), None),
        (FieldValue::Integer(i64::MIN), Some(i64::MIN)),
    ] {
        let mut point = LineProtocol::new("cpu.load").add_field("value", value);
        if let Some(t) = ts {
            point = point.with_timestamp(t);
        }
        let line = point.build().unwrap();
        let back = LineProtocol::parse_line(&line).unwrap();
        assert!(back == point);
        assert_eq!(back.fields.len(), 1);
        assert_eq!(
            back.get_field("value").unwrap().to_string(),
            point.get_field("value").unwrap().to_string()
        );
    }
}

#[test]
fn plain_tagged_point_reads_back() {
    let point = LineProtocol::new("weather")
        .add_tag("zone", "b7")
        .add_tag("city", "oslo")
        .add_field("temp", FieldValue::Integer(-3))
        .add_field("hum", FieldValue::UInteger(81))
        .add_field("gust", FieldValue::Integer(12))
        .add_field("note", text("say \"hi\", x=1"))
        .add_field("ok", FieldValue::Boolean(false))
        .add_field("rain", float("0.0250"))
        .with_timestamp(1729270461612452700);
    let line = point.build().unwrap();
    assert_eq!(
        line,
        "weather,city=oslo,zone=b7 gust=12i,hum=81i,note=\"say \\\"hi\\\", x=1\",ok=false,rain=0.025,\
         temp=-3i 1729270461612452700"
    );
    let back = LineProtocol::parse_line(&line).unwrap();
    assert_eq!(back, point);
    assert_eq!(back.fields.len(), 6);
    for key in ["temp", "hum", "gust", "note", "ok", "rain"] {
        assert_eq!(
            back.get_field(key).unwrap().to_string(),
            point.get_field(key).unwrap().to_string()
        );
    }
}

#[test]
fn string_values_with_backslashes_read_back() {
    for s in ["a\\", "\\", "x\\\\", "q=\\\"", "a b,c=d\\"] {
        let point = LineProtocol::new("m").add_field("f", text(s));
        let line = point.build().unwrap();
        let back = LineProtocol::parse_line(&line).unwrap();
        assert_eq!(back.get_field("f").unwrap().to_string(), s, "{line}");
        assert_eq!(back.fields.len(), 1);
    }
}
