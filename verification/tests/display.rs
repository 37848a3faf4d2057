use config::Table;
use config::Value;
use config::ValueKind;

#[test]
fn test_str_as_string() {
    let v_s: Value = Value::new(None, ValueKind::String(format!("test_str")));
    assert_eq!(v_s.as_string(), format!("test_str"));
}

#[test]
fn test_int_as_string() {
    let v_i: Value = Value::new(None, ValueKind::Integer(11));
    assert_eq!(v_i.as_string(), format!("11"));
}

#[test]
fn test_bool_as_string() {
    let v_b: Value = Value::new(None, ValueKind::Boolean(true));
    assert_eq!(v_b.as_string(), format!("true"));
}

#[test]
fn test_table_as_string() {
    let mut inner_table = Table::new();
    inner_table.insert(format!("key_a"), Value::new(None, ValueKind::String(format!("val1"))));
    inner_table.insert(format!("key_b"), Value::new(None, ValueKind::String(format!("val2"))));

    let mut outer_table = Table::new();
    outer_table.insert(format!("key1"), Value::new(None, ValueKind::String(format!("val1"))));
    outer_table.insert(format!("key2"), Value::new(None, ValueKind::Table(inner_table)));

    let v_t: Value = Value::new(None, ValueKind::Table(outer_table));
    assert_eq!(v_t.as_string(), format!("{{ key1: val1, key2: {{ key_a: val1, key_b: val2 }} }}"));
}

#[test]
fn test_array_as_string() {
    let mut test_array: Vec<Value> = Vec::new();

    test_array.push(Value::new(None, ValueKind::String(format!("test_str1"))));
    test_array.push(Value::new(None, ValueKind::Integer(22)));

    let v_a: Value = Value::new(None, ValueKind::Array(test_array));
    assert_eq!(v_a.as_string(), format!("[ test_str1, 22 ]"));
}

#[test]
fn test_complex_table_as_string() {
    let mut array_in_table: Vec<Value> = Vec::new();
    array_in_table.push(Value::new(None, ValueKind::String(format!("test"))));
    array_in_table.push(Value::new(None, ValueKind::Integer(22)));

    let mut table_with_array = Table::new();
    table_with_array.insert(format!("key_a"), Value::new(None, ValueKind::String(format!("test2"))));
    table_with_array.insert(format!("key_b"), Value::new(None, ValueKind::Array(array_in_table)));

    let mut table_in_array = Table::new();
    table_in_array.insert(format!("key1"), Value::new(None, ValueKind::String(format!("test2"))));
    table_in_array.insert(format!("key2"), Value::new(None, ValueKind::Integer(33)));

    let mut array_with_table: Vec<Value> = Vec::new();
    array_with_table.push(Value::new(None, ValueKind::String(format!("test3"))));
    array_with_table.push(Value::new(None, ValueKind::Table(table_in_array)));

    let mut outer_table_complex = Table::new();
    outer_table_complex.insert(format!("att"), Value::new(None, ValueKind::Table(table_with_array)));
    outer_table_complex.insert(format!("tat"), Value::new(None, ValueKind::Array(array_with_table)));

    let v_tc: Value = Value::new(None, ValueKind::Table(outer_table_complex));
    assert_eq!(
        v_tc.as_string(),
        format!(
            "{{ att: {{ key_a: test2, key_b: [ test, 22 ] }}, \
                              tat: [ test3, {{ key1: test2, key2: 33 }} ] }}"
        )
    );
}

#[test]
fn test_nil_as_string() {
    let v: Value = Value::new(None, ValueKind::Nil);
    assert_eq!(v.as_string(), String::new());
}

#[test]
fn test_negative_int_as_string() {
    let v: Value = Value::new(None, ValueKind::Integer(-9223372036854775808));
    assert_eq!(v.as_string(), format!("-9223372036854775808"));
}

#[test]
fn test_as_string_deterministic() {
    let mut t1 = Table::new();
    t1.insert(format!("b"), Value::new(None, ValueKind::Integer(2)));
    t1.insert(format!("a"), Value::new(None, ValueKind::Integer(1)));
    let v1 = Value::new(None, ValueKind::Table(t1));

    let mut t2 = Table::new();
    t2.insert(format!("a"), Value::new(None, ValueKind::Integer(1)));
    t2.insert(format!("b"), Value::new(None, ValueKind::Integer(2)));
    let v2 = Value::new(None, ValueKind::Table(t2));

    assert_eq!(v1.as_string(), format!("{{ a: 1, b: 2 }}"));
    assert_eq!(v1.as_string(), v2.as_string());
    assert_eq!(v1.as_string(), v1.as_string());
}
