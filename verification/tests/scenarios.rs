use json_obfuscator::json::{Json, Number};
use json_obfuscator::obfuscate::{obfuscate, obfuscate_vec};
use json_obfuscator::tables::{KeyTable, ValueTable};

fn float_bits() -> u64 {
    rand::random::<f64>().to_bits()
}

fn text(s: &str) -> Json {
    Json::String(s.to_string())
}

fn unsigned(n: u64) -> Json {
    Json::Number(Number::Unsigned(n))
}

fn entry(key: &str, value: Json) -> (String, Json) {
    (key.to_string(), value)
}

fn is_alphanumeric_text(s: &str) -> bool {
    s.chars().all(|c| c.is_ascii_alphanumeric())
}

#[test]
fn null_passes_through() {
    let mut keys = KeyTable::new();
    let mut values = ValueTable::new();
    let out = obfuscate(&Json::Null, &mut keys, &mut values, &float_bits);
    assert_eq!(out, Json::Null);
    assert!(keys.entries().is_empty());
    assert!(values.entries().is_empty());
}

#[test]
fn booleans_pass_through() {
    let mut keys = KeyTable::new();
    let mut values = ValueTable::new();
    assert_eq!(obfuscate(&Json::Bool(true), &mut keys, &mut values, &float_bits), Json::Bool(true));
    assert_eq!(obfuscate(&Json::Bool(false), &mut keys, &mut values, &float_bits), Json::Bool(false));
    assert!(keys.entries().is_empty());
    assert!(values.entries().is_empty());
}

#[test]
fn object_with_repeated_number() {
    let input = Json::Object(vec![
        entry("id", unsigned(42)),
        entry("name", text("Ann")),
        entry("id2", unsigned(42)),
    ]);
    let mut keys = KeyTable::new();
    let mut values = ValueTable::new();
    let out = obfuscate(&input, &mut keys, &mut values, &float_bits);
    let entries = match out {
        Json::Object(entries) => entries,
        other => panic!("not an object: {:?}", other),
    };
    // Keys of two, four and three characters: a collision is impossible.
    assert_eq!(entries.len(), 3);
    assert_eq!(entries[0].0.chars().count(), 2);
    assert_eq!(entries[1].0.chars().count(), 4);
    assert_eq!(entries[2].0.chars().count(), 3);
    for (key, _) in &entries {
        assert!(is_alphanumeric_text(key));
    }
    assert!(matches!(entries[0].1, Json::Number(Number::Unsigned(_))));
    assert_eq!(entries[0].1, entries[2].1);
    match &entries[1].1 {
        Json::String(s) => {
            assert_eq!(s.chars().count(), 3);
            assert!(is_alphanumeric_text(s));
        }
        other => panic!("not a string: {:?}", other),
    }
}

#[test]
fn array_with_repeated_number() {
    let input = Json::Array(vec![unsigned(1), unsigned(1), unsigned(2)]);
    let mut keys = KeyTable::new();
    let mut values = ValueTable::new();
    let out = obfuscate(&input, &mut keys, &mut values, &float_bits);
    let items = match out {
        Json::Array(items) => items,
        other => panic!("not an array: {:?}", other),
    };
    assert_eq!(items.len(), 3);
    assert_eq!(items[0], items[1]);
    assert!(matches!(items[2], Json::Number(Number::Unsigned(_))));
    assert_eq!(values.get(&unsigned(1)), Some(items[0].clone()));
    assert_eq!(values.get(&unsigned(2)), Some(items[2].clone()));
    assert_eq!(values.entries().len(), 2);
}

#[test]
fn batch_shares_the_tables() {
    let documents = vec![
        Json::Object(vec![entry("a", unsigned(1))]),
        Json::Object(vec![entry("b", unsigned(1))]),
    ];
    let mut keys = KeyTable::new();
    let mut values = ValueTable::new();
    let out = obfuscate_vec(&documents, &mut keys, &mut values, &float_bits);
    assert_eq!(out.len(), 2);
    let first = match &out[0] {
        Json::Object(entries) => entries,
        other => panic!("not an object: {:?}", other),
    };
    let second = match &out[1] {
        Json::Object(entries) => entries,
        other => panic!("not an object: {:?}", other),
    };
    assert_eq!(first.len(), 1);
    assert_eq!(second.len(), 1);
    assert_eq!(first[0].1, second[0].1);
    assert_eq!(first[0].0.chars().count(), 1);
    assert_eq!(second[0].0.chars().count(), 1);
    assert_eq!(keys.get("a"), Some(first[0].0.clone()));
    assert_eq!(keys.get("b"), Some(second[0].0.clone()));
    assert_eq!(keys.entries().len(), 2);
    assert_eq!(values.entries().len(), 1);
}

#[test]
fn repeated_key_is_reused_across_documents() {
    let documents = vec![
        Json::Object(vec![entry("user", text("x"))]),
        Json::Array(vec![Json::Object(vec![entry("user", text("y"))])]),
    ];
    let mut keys = KeyTable::new();
    let mut values = ValueTable::new();
    let out = obfuscate_vec(&documents, &mut keys, &mut values, &float_bits);
    let first = match &out[0] {
        Json::Object(entries) => entries[0].0.clone(),
        other => panic!("not an object: {:?}", other),
    };
    let second = match &out[1] {
        Json::Array(items) => match &items[0] {
            Json::Object(entries) => entries[0].0.clone(),
            other => panic!("not an object: {:?}", other),
        },
        other => panic!("not an array: {:?}", other),
    };
    assert_eq!(first, second);
    assert_eq!(first.chars().count(), 4);
    assert_eq!(keys.entries().len(), 1);
}

#[test]
fn tables_carry_over_between_calls() {
    let mut keys = KeyTable::new();
    let mut values = ValueTable::new();
    let first = obfuscate(&text("secret"), &mut keys, &mut values, &float_bits);
    let second = obfuscate(&text("secret"), &mut keys, &mut values, &float_bits);
    assert_eq!(first, second);
    assert_eq!(values.entries().len(), 1);
}

#[test]
fn key_and_value_tables_are_separate() {
    // The same text as a key and as a value is looked up in two tables.
    let input = Json::Object(vec![entry("abcdefghijklmnopqrstuvwx", text("abcdefghijklmnopqrstuvwx"))]);
    let mut keys = KeyTable::new();
    let mut values = ValueTable::new();
    let out = obfuscate(&input, &mut keys, &mut values, &float_bits);
    let entries = match out {
        Json::Object(entries) => entries,
        other => panic!("not an object: {:?}", other),
    };
    assert_eq!(keys.entries().len(), 1);
    assert_eq!(values.entries().len(), 1);
    assert_eq!(keys.get("abcdefghijklmnopqrstuvwx"), Some(entries[0].0.clone()));
    assert_eq!(values.get(&text("abcdefghijklmnopqrstuvwx")), Some(entries[0].1.clone()));
    assert_eq!(values.get(&text(&entries[0].0)).is_some(), entries[0].0 == "abcdefghijklmnopqrstuvwx");
}
