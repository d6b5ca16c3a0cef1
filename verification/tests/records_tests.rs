use serde_bonjson::records::{collect_record_definitions, compare_key_lists};
use serde_bonjson::value::object_insert;
use serde_bonjson::Value;

fn object(pairs: Vec<(&str, Value)>) -> Value {
    let mut map = Vec::new();
    for (k, v) in pairs {
        object_insert(&mut map, k.to_string(), v);
    }
    Value::Object(map)
}

fn keys(items: &[&str]) -> Vec<String> {
    items.iter().map(|s| s.to_string()).collect()
}

#[test]
fn record_definitions_of_repeated_key_sets() {
    let point = |x: i64, y: i64| object(vec![("x", Value::Int(x)), ("y", Value::Int(y))]);
    let value = Value::Array(vec![
        point(1, 2),
        point(3, 4),
        object(vec![("name", Value::Null)]),
        object(vec![]),
        object(vec![]),
        object(vec![("a", point(5, 6)), ("b", object(vec![("name", Value::Int(1))]))]),
    ]);
    let defs = collect_record_definitions(&value);
    assert_eq!(defs, vec![keys(&["name"]), keys(&["x", "y"])]);
}

#[test]
fn record_definitions_none() {
    assert!(collect_record_definitions(&Value::Int(1)).is_empty());
    let value = Value::Array(vec![object(vec![("a", Value::Null)]), object(vec![("b", Value::Null)])]);
    assert!(collect_record_definitions(&value).is_empty());
}

#[test]
fn key_list_order() {
    assert!(compare_key_lists(&keys(&["a"]), &keys(&["a", "b"])) < 0);
    assert!(compare_key_lists(&keys(&["b"]), &keys(&["a", "b"])) > 0);
    assert_eq!(compare_key_lists(&keys(&["a", "b"]), &keys(&["a", "b"])), 0);
    assert!(compare_key_lists(&keys(&[]), &keys(&["a"])) < 0);
}
