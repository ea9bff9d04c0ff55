use json_obfuscator::json::{Json, Number};
use json_obfuscator::obfuscate::{obfuscate, obfuscate_vec};
use json_obfuscator::tables::{KeyTable, NumberTable, StringTable, ValueTable};

fn float_bits() -> u64 {
    rand::random::<f64>().to_bits()
}

#[test]
fn fresh_tables_are_empty() {
    let keys = KeyTable::new();
    let values = ValueTable::new();
    let strings = StringTable::new();
    let numbers = NumberTable::new();
    assert_eq!(keys.get("a"), None);
    assert_eq!(strings.get(""), None);
    assert_eq!(numbers.get(&Number::Unsigned(0)), None);
    assert_eq!(values.get(&Json::Number(Number::Unsigned(0))), None);
    assert_eq!(values.get(&Json::String(String::new())), None);
    assert!(keys.entries().is_empty());
    assert!(values.entries().is_empty());
    assert!(numbers.entries().is_empty());
}

#[test]
fn value_table_holds_scalars_only() {
    let input = Json::Array(vec![
        Json::Null,
        Json::Bool(true),
        Json::Array(vec![]),
        Json::Object(vec![]),
        Json::Number(Number::Signed(-7)),
        Json::String("seven".to_string()),
    ]);
    let mut keys = KeyTable::new();
    let mut values = ValueTable::new();
    let _ = obfuscate(&input, &mut keys, &mut values, &float_bits);
    assert_eq!(values.get(&Json::Null), None);
    assert_eq!(values.get(&Json::Bool(true)), None);
    assert_eq!(values.get(&Json::Array(vec![])), None);
    assert_eq!(values.get(&Json::Object(vec![])), None);
    assert_eq!(values.get(&input), None);
    assert!(values.get(&Json::Number(Number::Signed(-7))).is_some());
    assert!(values.get(&Json::String("seven".to_string())).is_some());
    let listed = values.entries();
    assert_eq!(listed.len(), 2);
    assert!(listed.iter().any(|(original, _)| *original == Json::Number(Number::Signed(-7))));
    assert!(listed.iter().any(|(original, _)| *original == Json::String("seven".to_string())));
    assert!(keys.entries().is_empty());
}

#[test]
fn entries_list_each_original_once() {
    let input = Json::Object(vec![
        ("zeta".to_string(), Json::Number(Number::Unsigned(3))),
        ("alpha".to_string(), Json::Number(Number::Unsigned(1))),
        (
            "inner".to_string(),
            Json::Object(vec![
                ("zeta".to_string(), Json::Number(Number::Unsigned(3))),
                ("omega".to_string(), Json::Number(Number::Unsigned(2))),
            ]),
        ),
    ]);
    let mut keys = KeyTable::new();
    let mut values = ValueTable::new();
    let _ = obfuscate(&input, &mut keys, &mut values, &float_bits);
    let listed = keys.entries();
    let mut originals: Vec<&str> = listed.iter().map(|(original, _)| original.as_str()).collect();
    originals.sort();
    assert_eq!(originals, vec!["alpha", "inner", "omega", "zeta"]);
    for (original, replacement) in &listed {
        assert_eq!(keys.get(original), Some(replacement.clone()));
        assert_eq!(original.chars().count(), replacement.chars().count());
    }
    let numbers: Vec<Json> = values.entries().into_iter().map(|(original, _)| original).collect();
    assert_eq!(numbers.len(), 3);
    for n in [1u64, 2, 3] {
        assert!(numbers.contains(&Json::Number(Number::Unsigned(n))));
    }
}

#[test]
fn value_entries_pair_originals_with_replacements() {
    let documents = vec![
        Json::String("first".to_string()),
        Json::Number(Number::Float(1.25f64.to_bits())),
        Json::String("second".to_string()),
        Json::Number(Number::Unsigned(9)),
    ];
    let mut keys = KeyTable::new();
    let mut values = ValueTable::new();
    let out = obfuscate_vec(&documents, &mut keys, &mut values, &float_bits);
    let listed = values.entries();
    assert_eq!(listed.len(), 4);
    for i in 0..4 {
        assert!(listed.contains(&(documents[i].clone(), out[i].clone())));
    }
}

#[test]
fn numbers_of_different_kinds_are_different_originals() {
    // The same 64 bits as an unsigned integer, as a signed integer and as a
    // float are three originals.
    let documents = vec![
        Json::Number(Number::Unsigned(5)),
        Json::Number(Number::Signed(5)),
        Json::Number(Number::Float(5)),
    ];
    let mut keys = KeyTable::new();
    let mut values = ValueTable::new();
    let out = obfuscate_vec(&documents, &mut keys, &mut values, &float_bits);
    assert_eq!(values.entries().len(), 3);
    assert!(matches!(out[0], Json::Number(Number::Unsigned(_))));
    assert!(matches!(out[1], Json::Number(Number::Signed(_))));
    assert!(matches!(out[2], Json::Number(Number::Float(_))));
}

#[test]
fn floats_are_told_apart_by_their_bits() {
    let documents = vec![
        Json::Number(Number::Float(0.0f64.to_bits())),
        Json::Number(Number::Float((-0.0f64).to_bits())),
        Json::Number(Number::Float(0.0f64.to_bits())),
    ];
    let mut keys = KeyTable::new();
    let mut values = ValueTable::new();
    let out = obfuscate_vec(&documents, &mut keys, &mut values, &float_bits);
    assert_eq!(values.entries().len(), 2);
    assert_eq!(out[0], out[2]);
}
