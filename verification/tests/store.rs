use config::Config;
use config::Expression;
use config::ConfigError;
use config::Source;
use config::Value;
use config::ValueKind;

fn boolean(b: bool) -> Value {
    Value::new(None, ValueKind::Boolean(b))
}

fn integer(i: i64) -> Value {
    Value::new(None, ValueKind::Integer(i))
}

fn string(s: &str) -> Value {
    Value::new(None, ValueKind::String(s.to_string()))
}

fn one_pair_source(key: &str, value: Value) -> Source {
    Source { uri: Some("test source".to_string()), outcome: Ok(vec![(key.to_string(), value)]) }
}

fn failing_source(message: &str) -> Source {
    Source { uri: Some("bad source".to_string()), outcome: Err(message.to_string()) }
}

#[test]
fn test_set_scalar() {
    let mut c = Config::default();

    c.set("value", boolean(true)).unwrap();

    assert_eq!(c.get_bool("value").ok(), Some(true));
}

#[test]
fn test_precedence_all_layers() {
    let mut c = Config::default();
    c.set_default("key", string("default")).unwrap();
    c.merge(one_pair_source("key", string("source"))).unwrap();
    c.set("key", string("override")).unwrap();
    assert_eq!(c.get_str("key").ok(), Some("override".to_string()));

    let mut without_override = Config::default();
    without_override.set_default("key", string("default")).unwrap();
    without_override.merge(one_pair_source("key", string("source"))).unwrap();
    assert_eq!(without_override.get_str("key").ok(), Some("source".to_string()));

    let mut defaults_only = Config::default();
    defaults_only.set_default("key", string("default")).unwrap();
    assert_eq!(defaults_only.get_str("key").ok(), Some("default".to_string()));
}

#[test]
fn test_later_source_beats_earlier() {
    let mut c = Config::default();
    c.merge(one_pair_source("key", string("first"))).unwrap();
    c.merge(one_pair_source("key", string("second"))).unwrap();
    assert_eq!(c.get_str("key").ok(), Some("second".to_string()));
}

#[test]
fn test_auto_vivification() {
    let mut c = Config::default();
    c.set("items[0].name", string("John")).unwrap();
    assert_eq!(c.get_str("items[0].name").ok(), Some("John".to_string()));
    let items = c.get_array("items").unwrap();
    assert_eq!(items.len(), 1);
}

#[test]
fn test_sparse_index() {
    let mut c = Config::default();
    c.set("items[0].name", string("John")).unwrap();
    c.set("items[2]", string("George")).unwrap();
    assert_eq!(c.get_str("items[2]").ok(), Some("George".to_string()));
    assert_eq!(c.get_str("items[0].name").ok(), Some("John".to_string()));
    let items = c.get_array("items").unwrap();
    assert_eq!(items.len(), 3);
    assert!(matches!(items[1].kind, ValueKind::Nil));
}

#[test]
fn test_case_insensitive_keys() {
    let mut c = Config::default();
    c.set("Place.Favorite", boolean(true)).unwrap();
    assert_eq!(c.get_bool("place.favorite").ok(), Some(true));
    assert_eq!(c.get_bool("PLACE.FAVORITE").ok(), Some(true));
}

#[test]
fn test_frozen_rejects_mutation() {
    let mut c = Config::default();
    c.set("key", integer(1)).unwrap();
    let before = c.cache.as_string();
    c.freeze();

    assert!(matches!(c.set("key", integer(2)).unwrap_err(), ConfigError::Frozen));
    assert!(matches!(c.set_default("key", integer(3)).unwrap_err(), ConfigError::Frozen));
    assert!(matches!(
        c.merge(one_pair_source("key", integer(4))).unwrap_err(),
        ConfigError::Frozen
    ));
    assert!(matches!(c.refresh().unwrap_err(), ConfigError::Frozen));

    assert_eq!(c.cache.as_string(), before);
    assert_eq!(c.get_int("key").ok(), Some(1));
}

#[test]
fn test_abort_on_source_failure() {
    let mut c = Config::default();
    c.set_default("db.port", integer(5432)).unwrap();
    let result = c.merge(failing_source("could not be read"));
    assert!(result.is_err());
    match result.unwrap_err() {
        ConfigError::SourceError { uri, message } => {
            assert_eq!(uri, Some("bad source".to_string()));
            assert_eq!(message, "could not be read".to_string());
        }
        _ => panic!("wrong error kind"),
    }
    assert_eq!(c.get_int("db.port").ok(), Some(5432));
}

#[test]
fn test_refresh_idempotent() {
    let mut c = Config::default();
    c.set_default("a.b", integer(1)).unwrap();
    c.set("a.c", string("x")).unwrap();
    let s1 = c.cache.as_string();
    c.refresh().unwrap();
    let s2 = c.cache.as_string();
    c.refresh().unwrap();
    let s3 = c.cache.as_string();
    assert_eq!(s1, s2);
    assert_eq!(s2, s3);
}

#[test]
fn test_parse_errors() {
    let mut c = Config::default();
    assert!(matches!(c.set("", integer(1)).unwrap_err(), ConfigError::ParseError { .. }));
    assert!(matches!(c.set("a..b", integer(1)).unwrap_err(), ConfigError::ParseError { .. }));
    assert!(matches!(c.set("a[", integer(1)).unwrap_err(), ConfigError::ParseError { .. }));
    assert!(matches!(c.set("a[x]", integer(1)).unwrap_err(), ConfigError::ParseError { .. }));
    assert!(matches!(c.set("a[1", integer(1)).unwrap_err(), ConfigError::ParseError { .. }));
    assert!(matches!(c.set("a]b", integer(1)).unwrap_err(), ConfigError::ParseError { .. }));
    assert!(matches!(c.set(".a", integer(1)).unwrap_err(), ConfigError::ParseError { .. }));
    assert!(matches!(c.set("a.", integer(1)).unwrap_err(), ConfigError::ParseError { .. }));
    assert!(matches!(c.set("a[0]b", integer(1)).unwrap_err(), ConfigError::ParseError { .. }));
    assert!(c.set("a_b-c[10][2].d", integer(1)).is_ok());
}

#[test]
fn test_parse_error_names_fragment() {
    let mut c = Config::default();
    match c.set("a..b", integer(1)).unwrap_err() {
        ConfigError::ParseError { fragment } => assert_eq!(fragment, ".b".to_string()),
        _ => panic!("wrong error kind"),
    }
    match c.set("a[x]", integer(1)).unwrap_err() {
        ConfigError::ParseError { fragment } => assert_eq!(fragment, "[x]".to_string()),
        _ => panic!("wrong error kind"),
    }
    match Expression::parse("arr[0").unwrap_err() {
        ConfigError::ParseError { fragment } => assert_eq!(fragment, "[0".to_string()),
        _ => panic!("wrong error kind"),
    }
}

#[test]
fn test_get_not_found() {
    let c = Config::default();
    match c.get("missing.key").unwrap_err() {
        ConfigError::NotFound { key } => assert_eq!(key, "missing.key".to_string()),
        _ => panic!("wrong error kind"),
    }
}

#[test]
fn test_get_keyed_type_error() {
    let mut c = Config::default();
    c.set("flag", string("maybe")).unwrap();
    match c.get_bool("flag").unwrap_err() {
        ConfigError::InvalidType { expected, key, .. } => {
            assert_eq!(expected, "a boolean".to_string());
            assert_eq!(key, Some("flag".to_string()));
        }
        _ => panic!("wrong error kind"),
    }
}

#[test]
fn test_set_overwrites_shape_conflicts() {
    let mut c = Config::default();
    c.set("a", integer(1)).unwrap();
    c.set("a.b", integer(2)).unwrap();
    assert_eq!(c.get_int("a.b").ok(), Some(2));
}

#[test]
fn test_last_write_wins_in_layer() {
    let mut c = Config::default();
    c.set("k", integer(1)).unwrap();
    c.set("k", integer(2)).unwrap();
    assert_eq!(c.get_int("k").ok(), Some(2));
}

#[test]
fn test_chained_results() {
    let mut c = Config::default();
    let chained = c.set("a", integer(1)).set("b", integer(2));
    assert!(chained.is_ok());
    let inner = chained.unwrap();
    assert_eq!(inner.get_int("b").ok(), Some(2));
}

#[test]
fn test_overlapping_bindings_apply_in_insertion_order() {
    // two overlapping override expressions: the later-inserted one is
    // applied later and wins over what it overlaps
    let mut c = Config::default();
    c.set("a.b", integer(1)).unwrap();
    c.set("a", string("scalar")).unwrap();
    assert_eq!(c.get_str("a").ok(), Some("scalar".to_string()));
    assert!(c.get_int("a.b").is_err());

    let mut d = Config::default();
    d.set("a", string("scalar")).unwrap();
    d.set("a.b", integer(1)).unwrap();
    assert_eq!(d.get_int("a.b").ok(), Some(1));
}

#[test]
fn test_rebinding_keeps_insertion_position() {
    // rebinding an expression replaces its value in place: the binding
    // keeps its first insertion position in the layer's apply order
    let mut c = Config::default();
    c.set("a", string("first")).unwrap();
    c.set("a.b", integer(5)).unwrap();
    c.set("a", string("second")).unwrap();
    assert_eq!(c.get_int("a.b").ok(), Some(5));
}

#[test]
fn test_nested_source_value_flattens() {
    let mut inner = config::Table::new();
    inner.insert("name".to_string(), string("John Smith"));
    let mut c = Config::default();
    c.merge(one_pair_source("place.creator", Value::new(None, ValueKind::Table(inner))))
        .unwrap();
    assert_eq!(c.get_str("place.creator.name").ok(), Some("John Smith".to_string()));
}
