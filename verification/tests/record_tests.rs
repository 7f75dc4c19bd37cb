use release_test::CoreError;
use release_test::DataModel;
use release_test::format_data;
use release_test::parse_record;
use release_test::rendered_round_trips;
use release_test::serialize_data;

#[test]
fn test_data_model_creation() {
    let model = DataModel::new(1, "test".to_string(), 42.0f64.to_bits()).unwrap();
    assert_eq!(model.id, 1);
    assert_eq!(model.name, "test");
    assert_eq!(model.value, 42.0f64.to_bits());
}

#[test]
fn test_data_model_validation() {
    let result = DataModel::new(1, "".to_string(), 42.0f64.to_bits());
    assert!(result.is_err());
}

#[test]
fn test_process() {
    let model = DataModel::new(1, "test".to_string(), 21.0f64.to_bits()).unwrap();
    assert_eq!(model.process(), 42.0f64.to_bits());
}

#[test]
fn test_to_json() {
    let model = DataModel::new(1, "test".to_string(), 42.0f64.to_bits()).unwrap();
    let json = model.to_json().unwrap();
    assert!(json.contains("\"id\":1"));
    assert!(json.contains("\"name\":\"test\""));
}

#[test]
fn test_format_data() {
    let model = DataModel::new(1, "test".to_string(), 42.0f64.to_bits()).unwrap();
    let formatted = format_data(&model);
    assert_eq!(formatted, "Data #1: test = 42");
}

#[test]
fn test_serialize_data() {
    let model = DataModel::new(1, "test".to_string(), 42.0f64.to_bits()).unwrap();
    let json = serialize_data(&model).unwrap();
    assert!(json.contains("\"id\": 1"));
    assert!(json.contains("\"name\": \"test\""));
}

#[test]
fn test_squared() {
    let model = DataModel::new(7, "seven".to_string(), 3.0f64.to_bits()).unwrap();
    assert_eq!(model.squared(), 9.0f64.to_bits());
}

#[test]
fn test_validation_rejects_non_finite_value() {
    // The constructor enforces value finiteness as an invariant, so a
    // NaN or infinite value is rejected like an empty name is.
    let result = DataModel::new(1, "test".to_string(), f64::NAN.to_bits());
    assert!(matches!(result, Err(CoreError::ValidationError(_))));
    let result = DataModel::new(1, "test".to_string(), f64::INFINITY.to_bits());
    assert!(matches!(result, Err(CoreError::ValidationError(_))));
}

#[test]
fn test_validation_error_message() {
    let err = DataModel::new(1, "".to_string(), 42.0f64.to_bits()).unwrap_err();
    assert_eq!(err.message(), "validation error: Name cannot be empty");
}

#[test]
fn test_json_round_trip() {
    // Serializing a record and parsing the text back yields
    // field-for-field equality with the original.
    let model = DataModel::new(31, "sample record".to_string(), 2.5f64.to_bits()).unwrap();
    let json = model.to_json().unwrap();
    let parsed: serde_json::Value = serde_json::from_str(&json).unwrap();
    assert_eq!(parsed["id"].as_u64(), Some(31));
    assert_eq!(parsed["name"].as_str(), Some("sample record"));
    assert_eq!(parsed["value"].as_f64(), Some(2.5));
}

#[test]
fn test_pretty_json_round_trip() {
    let model = DataModel::new(8, "x".to_string(), (-0.125f64).to_bits()).unwrap();
    let json = serialize_data(&model).unwrap();
    let parsed: serde_json::Value = serde_json::from_str(&json).unwrap();
    assert_eq!(parsed["id"].as_u64(), Some(8));
    assert_eq!(parsed["name"].as_str(), Some("x"));
    assert_eq!(parsed["value"].as_f64(), Some(-0.125));
}

#[test]
fn test_parse_record_round_trip() {
    let model = DataModel::new(12345, "a \"quoted\"\tname".to_string(), 0.1f64.to_bits())
        .unwrap();
    let json = model.to_json().unwrap();
    let parsed = parse_record(&json).unwrap();
    assert_eq!(parsed.id, model.id);
    assert_eq!(parsed.name, model.name);
    assert_eq!(parsed.value, model.value);
    assert!(rendered_round_trips(&model));
}

#[test]
fn test_parse_record_rejects_malformed() {
    assert!(parse_record("").is_none());
    assert!(parse_record("{\"id\":x,\"name\":\"a\",\"value\":1}").is_none());
    assert!(parse_record("{\"id\":1,\"name\":\"a\",\"value\":}").is_none());
    assert!(parse_record("{\"id\":1,\"name\":\"\",\"value\":2.5}").is_none());
    assert!(parse_record("not json at all").is_none());
}

#[test]
fn test_parse_record_rejects_non_decimal_tokens() {
    // Only plain decimal value tokens are accepted: no hexadecimal
    // floats, no leading plus, no named specials, no empty exponent.
    assert!(parse_record("{\"id\":1,\"name\":\"a\",\"value\":0x1p5}").is_none());
    assert!(parse_record("{\"id\":1,\"name\":\"a\",\"value\":+1.5}").is_none());
    assert!(parse_record("{\"id\":1,\"name\":\"a\",\"value\":NaN}").is_none());
    assert!(parse_record("{\"id\":1,\"name\":\"a\",\"value\":inf}").is_none());
    assert!(parse_record("{\"id\":1,\"name\":\"a\",\"value\":1.5e}").is_none());
    assert!(parse_record("{\"id\":1,\"name\":\"a\",\"value\":1.}").is_none());
}

#[test]
fn test_parse_record_accepts_exponent_form() {
    let parsed = parse_record("{\"id\":1,\"name\":\"a\",\"value\":2.5e1}").unwrap();
    assert_eq!(parsed.value, 25.0f64.to_bits());
    let parsed = parse_record("{\"id\":1,\"name\":\"a\",\"value\":-1.0E+4}").unwrap();
    assert_eq!(parsed.value, (-10000.0f64).to_bits());
}

#[test]
fn test_parse_record_plain() {
    let parsed = parse_record("{\"id\":7,\"name\":\"seven\",\"value\":2.5}").unwrap();
    assert_eq!(parsed.id, 7);
    assert_eq!(parsed.name, "seven");
    assert_eq!(parsed.value, 2.5f64.to_bits());
}

#[test]
fn test_json_escapes_name() {
    let model = DataModel::new(2, "a\"b\\c\nd".to_string(), 1.0f64.to_bits()).unwrap();
    let json = model.to_json().unwrap();
    let parsed: serde_json::Value = serde_json::from_str(&json).unwrap();
    assert_eq!(parsed["name"].as_str(), Some("a\"b\\c\nd"));
}
