use line_protocol::element::FieldValue;
use line_protocol::error::{BuilderError, LineProtocolError};
use line_protocol::float::Float;
use line_protocol::LineProtocol;

fn text(s: &str) -> FieldValue {
    FieldValue::String(s.to_string())
}

fn float(s: &str) -> FieldValue {
    FieldValue::Float(Float::parse(s).unwrap())
}

fn builder_error(result: Result<String, LineProtocolError>) -> BuilderError {
    match result {
        Err(LineProtocolError::BuilderError(e)) => e,
        other => panic!("expected a builder error, got {other:?}"),
    }
}

#[test]
fn test_builder_valid_missing_tags() {
    let result = LineProtocol::new("measurement")
        .add_field("field", text("value"))
        .with_timestamp(1729270461612452700i64)
        .build();
    assert!(result.is_ok());

    let line = result.unwrap();
    assert_eq!(line, "measurement field=\"value\" 1729270461612452700")
}

#[test]
fn test_builder_valid() {
    let result = LineProtocol::new("measurement")
        .add_tag("tag1", "value")
        .add_tag("tag2", "value")
        .add_field("field1", text("value"))
        .add_field("field2", text("{\"foo\": \"bar\"}"))
        .add_field("field3", text("[\"hello\", \"world\"]"))
        .add_field("field4", FieldValue::Boolean(true))
        .add_field("field5", float("10.0"))
        .add_field("field6", FieldValue::Integer(10))
        .add_field("field7", float("0.5"))
        .with_timestamp(1729270461612452700i64)
        .build();
    assert!(result.is_ok());

    let line = result.unwrap();
    assert_eq!(
        line,
        "measurement,tag1=value,tag2=value field1=\"value\",field2=\"{\\\"foo\\\": \
         \\\"bar\\\"}\",field3=\"[\\\"hello\\\", \
         \\\"world\\\"]\",field4=true,field5=10,field6=10i,field7=0.5 1729270461612452700"
    )
}

#[test]
fn test_builder_missing_field_is_err() {
    let result = LineProtocol::new("measurement").build();
    assert!(result.is_err());
}

#[test]
fn test_builder_empty_measurement_is_err() {
    let result = LineProtocol::new("").add_field("field", text("value")).build();
    assert!(result.is_err());
}

#[test]
fn test_builder_invalid_measurement_is_err() {
    let result = LineProtocol::new("_measurement")
        .add_field("field", text("value"))
        .build();
    assert!(result.is_err());
}

#[test]
fn test_builder_empty_tag_key_is_err() {
    let result = LineProtocol::new("measurement")
        .add_tag("", "value")
        .add_field("field", text("value"))
        .build();
    assert!(result.is_err());
}

#[test]
fn test_builder_invalid_tag_key_is_err() {
    let result = LineProtocol::new("measurement")
        .add_tag("_tag", "value")
        .add_field("field", text("value"))
        .build();
    assert!(result.is_err());
}

#[test]
fn test_builder_empty_tag_value_is_err() {
    let result = LineProtocol::new("measurement")
        .add_tag("key", "")
        .add_field("field", text("value"))
        .build();
    assert!(result.is_err());
}

#[test]
fn test_builder_empty_field_key_is_err() {
    let result = LineProtocol::new("measurement")
        .add_field("", text("value"))
        .build();
    assert!(result.is_err());
}

#[test]
fn test_builder_invalid_field_key_is_err() {
    let result = LineProtocol::new("measurement")
        .add_tag("tag", "value")
        .add_field("_field", text("value"))
        .build();
    assert!(result.is_err());
}

#[test]
fn test_builder_empty_field_value_is_err() {
    let result = LineProtocol::new("measurement")
        .add_field("field", text(""))
        .build();
    assert!(result.is_err());
}

#[test]
fn each_builder_error_names_its_rule() {
    let ok = |p: LineProtocol| p.add_field("f", text("v"));
    assert_eq!(
        builder_error(ok(LineProtocol::new("")).build()),
        BuilderError::EmptyMeasurement
    );
    assert_eq!(
        builder_error(ok(LineProtocol::new("_x")).build()),
        BuilderError::InvalidMeasurement
    );
    assert_eq!(
        builder_error(ok(LineProtocol::new("m").add_tag("", "v")).build()),
        BuilderError::EmptyTagKey
    );
    assert_eq!(
        builder_error(ok(LineProtocol::new("m").add_tag("_t", "v")).build()),
        BuilderError::InvalidTagKey
    );
    assert_eq!(
        builder_error(ok(LineProtocol::new("m").add_tag("t", "")).build()),
        BuilderError::EmptyTagValue
    );
    assert_eq!(
        builder_error(LineProtocol::new("m").add_field("", text("v")).build()),
        BuilderError::EmptyFieldKey
    );
    assert_eq!(
        builder_error(LineProtocol::new("m").add_field("_f", text("v")).build()),
        BuilderError::InvalidFieldKey
    );
    assert_eq!(
        builder_error(LineProtocol::new("m").add_field("f", text("")).build()),
        BuilderError::EmptyFieldValue
    );
    assert_eq!(
        builder_error(LineProtocol::new("m").build()),
        BuilderError::MissingFields
    );
}

#[test]
fn measurement_is_checked_before_tags_and_fields() {
    let p = LineProtocol::new("_m").add_tag("", "").add_field("", text(""));
    assert_eq!(builder_error(p.build()), BuilderError::InvalidMeasurement);
    let p = LineProtocol::new("m").add_tag("t", "").add_field("", text(""));
    assert_eq!(builder_error(p.build()), BuilderError::EmptyTagValue);
}

#[test]
fn tags_are_sorted_whatever_the_order_of_adding() {
    let a = LineProtocol::new("m")
        .add_tag("tag2", "v")
        .add_tag("tag1", "v")
        .add_field("f", FieldValue::Integer(1))
        .build()
        .unwrap();
    let b = LineProtocol::new("m")
        .add_tag("tag1", "v")
        .add_tag("tag2", "v")
        .add_field("f", FieldValue::Integer(1))
        .build()
        .unwrap();
    assert_eq!(a, "m,tag1=v,tag2=v f=1i");
    assert_eq!(a, b);
}

#[test]
fn fields_are_sorted_by_their_text() {
    let line = LineProtocol::new("m")
        .add_field("b", FieldValue::Boolean(false))
        .add_field("a", FieldValue::UInteger(3))
        .add_field("a2", text("x y"))
        .build()
        .unwrap();
    assert_eq!(line, "m a2=\"x y\",a=3i,b=false");
}

#[test]
fn special_characters_are_escaped() {
    let line = LineProtocol::new("my measurement,x")
        .add_tag("t k", "a=b,c")
        .add_field("f=1", text("say \"hi\" \\ bye"))
        .build()
        .unwrap();
    assert_eq!(
        line,
        "my\\ measurement\\,x,t\\ k=a\\=b\\,c f\\=1=\"say \\\"hi\\\" \\\\ bye\""
    );
}

#[test]
fn adding_a_key_again_replaces_its_value() {
    let p = LineProtocol::new("m")
        .add_tag("t", "a")
        .add_tag("t", "b")
        .add_field("f", FieldValue::Integer(1))
        .add_field("f", FieldValue::Integer(-2));
    assert_eq!(p.build().unwrap(), "m,t=b f=-2i");
    assert_eq!(p.fields.len(), 1);
}

#[test]
fn deleting_and_timestamps() {
    let p = LineProtocol::new("m")
        .add_tag("t", "a")
        .add_field("f", FieldValue::Integer(1))
        .add_field("g", FieldValue::Integer(2))
        .with_timestamp(-5)
        .delete_field("g");
    assert_eq!(p.build().unwrap(), "m,t=a f=1i -5");
    let p = p.delete_timestamp().delete_tag("t");
    // an emptied tag set writes no comma
    assert!(p.tags.is_some());
    assert_eq!(p.build().unwrap(), "m f=1i");
    let mut q = LineProtocol::new("m");
    q.delete_tag_ref("nothing");
    assert!(q.tags.is_none());
    let r = LineProtocol::new("m").delete_tag("t");
    assert!(r.tags.is_none());
}

#[test]
fn in_place_forms_match_chained_forms() {
    let mut p = LineProtocol::new("m");
    p.measurement_ref("n");
    p.add_tag_ref("t", "a");
    p.add_field_ref("f", FieldValue::Integer(i64::MIN));
    p.add_field_ref("g", FieldValue::Integer(0));
    p.delete_field_ref("g");
    p.with_timestamp_ref(i64::MAX);
    assert_eq!(p.build().unwrap(), "n,t=a f=-9223372036854775808i 9223372036854775807");
    p.delete_timestamp_ref();
    p.delete_tag_ref("t");
    let q = LineProtocol::new("m")
        .measurement("n")
        .add_field("f", FieldValue::Integer(i64::MIN));
    assert_eq!(q.build().unwrap(), "n f=-9223372036854775808i");
    assert_eq!(p.build().unwrap(), "n f=-9223372036854775808i");
}

#[test]
fn emptied_tag_set_builds_without_comma() {
    let line = LineProtocol::new("m")
        .add_tag("t", "v")
        .delete_tag("t")
        .add_field("f", FieldValue::Integer(1))
        .build()
        .unwrap();
    assert_eq!(line, "m f=1i");
}

#[test]
fn getters_read_and_change_the_point() {
    let mut p = LineProtocol::new("m")
        .add_tag("t", "a")
        .add_field("f", FieldValue::Integer(1))
        .with_timestamp(7);
    assert_eq!(p.get_measurement().to_string(), "m");
    assert_eq!(p.get_measurement_ref().to_string(), "m");
    assert_eq!(p.get_tag("t").unwrap().to_string(), "a");
    assert!(p.get_tag("u").is_none());
    assert_eq!(p.get_tag_ref("t").unwrap().to_string(), "a");
    assert_eq!(p.get_field("f").unwrap().to_string(), "1i");
    assert_eq!(p.get_field_ref("f").unwrap().to_string(), "1i");
    assert!(p.get_field("g").is_none());
    assert_eq!(p.get_timestamp(), Some(7));
    assert_eq!(p.get_timestamp_ref(), Some(&7));
    *p.get_timestamp_mut().unwrap() = 8;
    *p.get_field_mut("f").unwrap() = FieldValue::Boolean(true);
    *p.get_tag_mut("t").unwrap() = line_protocol::element::TagValue::from("b");
    p.get_measurement_mut().0.push('2');
    assert!(p.get_tag_mut("u").is_none());
    assert_eq!(p.build().unwrap(), "m2,t=b f=true 8");
}
