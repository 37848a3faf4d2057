use config::Config;
use config::Expression;
use config::FileFormat;
use config::Table;
use config::Value;
use config::ValueKind;

fn string(s: &str) -> Value {
    Value::new(None, ValueKind::String(s.to_string()))
}

#[test]
fn test_get_tree_reads_subtree() {
    let mut creator = Table::new();
    creator.insert("name".to_string(), string("John Smith"));
    creator.insert("id".to_string(), Value::new(None, ValueKind::Integer(12345)));

    let mut place = Table::new();
    place.insert("creator".to_string(), Value::new(None, ValueKind::Table(creator)));
    place.insert("name".to_string(), string("Torre di Pisa"));

    let mut c = Config::default();
    c.set("place", Value::new(None, ValueKind::Table(place))).unwrap();

    let mut tree = c.get_tree("place").unwrap();
    assert_eq!(tree.get_str("name").ok(), Some("Torre di Pisa".to_string()));
    assert_eq!(tree.get_str("creator.name").ok(), Some("John Smith".to_string()));
    assert_eq!(tree.get_int("creator.id").ok(), Some(12345));

    // a subtree is a full store of its own: it can be refreshed and
    // mutated independently
    tree.refresh().unwrap();
    assert_eq!(tree.get_str("creator.name").ok(), Some("John Smith".to_string()));
}

#[test]
fn test_into_tree_from_value() {
    let mut table = Table::new();
    table.insert("a".to_string(), string("x"));
    let v = Value::new(None, ValueKind::Table(table));
    let tree = v.into_tree().unwrap();
    assert_eq!(tree.get_str("a").ok(), Some("x".to_string()));

    assert!(string("scalar").into_tree().is_err());
}

#[test]
fn test_from_table_seeds_overrides() {
    let mut arr_elems: Vec<Value> = Vec::new();
    arr_elems.push(string("one"));
    arr_elems.push(string("two"));

    let mut table = Table::new();
    table.insert("arr".to_string(), Value::new(None, ValueKind::Array(arr_elems)));
    table.insert("scalar".to_string(), Value::new(None, ValueKind::Integer(9)));

    let c = Config::from(table);
    assert_eq!(c.get_str("arr[0]").ok(), Some("one".to_string()));
    assert_eq!(c.get_str("arr[1]").ok(), Some("two".to_string()));
    assert_eq!(c.get_int("scalar").ok(), Some(9));
}

#[test]
fn test_expression_parse_and_eq() {
    let a = Expression::parse("items[0].name").unwrap();
    let b = Expression::parse("items[00].name").unwrap();
    let c = Expression::parse("items[1].name").unwrap();
    assert!(a.eq_expr(&b));
    assert!(!a.eq_expr(&c));
    assert_eq!(a.len(), 3);
    assert!(Expression::parse("items[0]].name").is_err());
}

#[test]
fn test_expression_get_and_set() {
    let mut root = Value::new(None, ValueKind::Table(Table::new()));
    let e = Expression::parse("a.b[1]").unwrap();
    e.set(&mut root, Value::new(None, ValueKind::Integer(7)));
    let found = e.get(&root).unwrap();
    assert!(matches!(found.kind, ValueKind::Integer(7)));
    let miss = Expression::parse("a.c").unwrap();
    assert!(miss.get(&root).is_none());
}

#[test]
fn test_file_format_extensions() {
    assert_eq!(FileFormat::Toml.extensions(), vec!["toml"]);
    assert_eq!(FileFormat::Yaml.extensions(), vec!["yaml", "yml"]);
}
