use config::ConfigError;
use config::FloatVal;
use config::Value;
use config::ValueKind;

fn string_value(s: &str) -> Value {
    Value::new(None, ValueKind::String(s.to_string()))
}

#[test]
fn test_into_bool_words() {
    assert_eq!(string_value("yes").into_bool().ok(), Some(true));
    assert_eq!(string_value("NO").into_bool().ok(), Some(false));
    assert_eq!(string_value("1").into_bool().ok(), Some(true));
    assert_eq!(string_value("0").into_bool().ok(), Some(false));
    assert_eq!(string_value("true").into_bool().ok(), Some(true));
    assert_eq!(string_value("Off").into_bool().ok(), Some(false));
    assert_eq!(string_value("ON").into_bool().ok(), Some(true));
    assert_eq!(string_value("False").into_bool().ok(), Some(false));
}

#[test]
fn test_into_bool_bad_word() {
    let err = string_value("maybe").into_bool().unwrap_err();
    assert!(matches!(err, ConfigError::InvalidType { .. }));
}

#[test]
fn test_into_bool_numbers() {
    assert_eq!(Value::new(None, ValueKind::Integer(0)).into_bool().ok(), Some(false));
    assert_eq!(Value::new(None, ValueKind::Integer(7)).into_bool().ok(), Some(true));
    let zero = FloatVal { text: "0".to_string(), is_zero: true, rounded: 0 };
    assert_eq!(Value::new(None, ValueKind::Float(zero)).into_bool().ok(), Some(false));
    let pi = FloatVal { text: "3.14".to_string(), is_zero: false, rounded: 3 };
    assert_eq!(Value::new(None, ValueKind::Float(pi)).into_bool().ok(), Some(true));
}

#[test]
fn test_into_int_from_float() {
    let f = FloatVal { text: "2.6".to_string(), is_zero: false, rounded: 3 };
    assert_eq!(Value::new(None, ValueKind::Float(f)).into_int().ok(), Some(3));
}

#[test]
fn test_into_int_from_strings() {
    assert_eq!(string_value("42").into_int().ok(), Some(42));
    assert_eq!(string_value("-7").into_int().ok(), Some(-7));
    assert_eq!(string_value("+5").into_int().ok(), Some(5));
    assert_eq!(string_value("on").into_int().ok(), Some(1));
    assert_eq!(string_value("off").into_int().ok(), Some(0));
    assert_eq!(string_value("yes").into_int().ok(), Some(1));
    assert_eq!(string_value("-9223372036854775808").into_int().ok(), Some(-9223372036854775808));
    assert_eq!(string_value("9223372036854775807").into_int().ok(), Some(9223372036854775807));
    assert!(string_value("9223372036854775808").into_int().is_err());
    assert!(string_value("99999999999999999999999").into_int().is_err());
    assert!(string_value("4x").into_int().is_err());
    assert!(string_value("").into_int().is_err());
    assert!(string_value(" 4").into_int().is_err());
}

#[test]
fn test_into_int_from_bool() {
    assert_eq!(Value::new(None, ValueKind::Boolean(true)).into_int().ok(), Some(1));
    assert_eq!(Value::new(None, ValueKind::Boolean(false)).into_int().ok(), Some(0));
}

#[test]
fn test_into_int_rejects_nil() {
    let err = Value::new(None, ValueKind::Nil).into_int().unwrap_err();
    assert!(matches!(err, ConfigError::InvalidType { .. }));
}

#[test]
fn test_into_str() {
    assert_eq!(string_value("abc").into_str().ok(), Some("abc".to_string()));
    assert_eq!(Value::new(None, ValueKind::Boolean(true)).into_str().ok(), Some("true".to_string()));
    assert_eq!(Value::new(None, ValueKind::Integer(11)).into_str().ok(), Some("11".to_string()));
    let f = FloatVal { text: "2.5".to_string(), is_zero: false, rounded: 3 };
    assert_eq!(Value::new(None, ValueKind::Float(f)).into_str().ok(), Some("2.5".to_string()));
    assert!(Value::new(None, ValueKind::Nil).into_str().is_err());
    assert!(Value::new(None, ValueKind::Array(Vec::new())).into_str().is_err());
}

#[test]
fn test_into_array() {
    let arr = vec![Value::new(None, ValueKind::Integer(1))];
    let v = Value::new(None, ValueKind::Array(arr));
    let out = v.into_array().unwrap();
    assert_eq!(out.len(), 1);
    assert!(string_value("nope").into_array().is_err());
}

#[test]
fn test_into_bool_error_carries_shapes() {
    let err = Value::new(None, ValueKind::Nil).into_bool().unwrap_err();
    match err {
        ConfigError::InvalidType { origin, unexpected, expected, key } => {
            assert_eq!(origin, None);
            assert_eq!(unexpected, "nil".to_string());
            assert_eq!(expected, "a boolean".to_string());
            assert_eq!(key, None);
        }
        _ => panic!("wrong error kind"),
    }
}
