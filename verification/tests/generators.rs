use json_obfuscator::json::{Number, NumberKind};
use json_obfuscator::obfuscate::{obfuscate_number, obfuscate_string};

#[test]
fn string_of_no_characters() {
    assert_eq!(obfuscate_string(0), "");
}

#[test]
fn string_has_the_length_asked_for() {
    for n in [1usize, 2, 3, 7, 64, 1000] {
        let s = obfuscate_string(n);
        assert_eq!(s.chars().count(), n);
        assert_eq!(s.len(), n);
    }
}

#[test]
fn string_is_alphanumeric() {
    let s = obfuscate_string(5000);
    assert!(s.chars().all(|c| c.is_ascii_alphanumeric()));
}

#[test]
fn string_draws_from_the_whole_alphabet() {
    // 20000 draws from 62 characters: each class is missed with a chance
    // below 1e-1000.
    let s = obfuscate_string(20000);
    assert!(s.chars().any(|c| c.is_ascii_digit()));
    assert!(s.chars().any(|c| c.is_ascii_uppercase()));
    assert!(s.chars().any(|c| c.is_ascii_lowercase()));
}

#[test]
fn strings_differ_from_draw_to_draw() {
    // Two strings of 40 characters are equal with a chance of 62^-40.
    assert_ne!(obfuscate_string(40), obfuscate_string(40));
}

#[test]
fn unsigned_stays_unsigned() {
    let source = || 0u64;
    for original in [0u64, 1, 42, u64::MAX] {
        let out = obfuscate_number(&Number::Unsigned(original), &source);
        assert!(matches!(out, Number::Unsigned(_)));
        assert_eq!(out.kind(), NumberKind::Unsigned);
    }
}

#[test]
fn signed_stays_signed() {
    let source = || 0u64;
    for original in [-1i64, i64::MIN, -42, 7] {
        let out = obfuscate_number(&Number::Signed(original), &source);
        assert!(matches!(out, Number::Signed(_)));
        assert_eq!(out.kind(), NumberKind::Signed);
    }
}

#[test]
fn float_comes_from_the_source() {
    let half = 0.5f64.to_bits();
    let source = || half;
    let out = obfuscate_number(&Number::Float(2.75f64.to_bits()), &source);
    assert_eq!(out, Number::Float(half));
    assert_eq!(out.kind(), NumberKind::Float);
}

#[test]
fn float_source_is_asked_for_floats_only() {
    let source = || -> u64 { panic!("no float was asked for") };
    let _ = obfuscate_number(&Number::Unsigned(5), &source);
    let _ = obfuscate_number(&Number::Signed(-5), &source);
}

#[test]
fn integers_span_the_range() {
    // Among 200 draws the top bit is set at least once and clear at least
    // once, but for a chance of 2^-199.
    let source = || 0u64;
    let mut high = false;
    let mut low = false;
    let mut negative = false;
    let mut non_negative = false;
    for _ in 0..200 {
        if let Number::Unsigned(n) = obfuscate_number(&Number::Unsigned(1), &source) {
            if n > u64::MAX / 2 {
                high = true;
            } else {
                low = true;
            }
        }
        if let Number::Signed(n) = obfuscate_number(&Number::Signed(-1), &source) {
            if n < 0 {
                negative = true;
            } else {
                non_negative = true;
            }
        }
    }
    assert!(high && low && negative && non_negative);
}

#[test]
fn kind_of_each_number() {
    assert_eq!(Number::Unsigned(3).kind(), NumberKind::Unsigned);
    assert_eq!(Number::Signed(-3).kind(), NumberKind::Signed);
    assert_eq!(Number::Float(1.5f64.to_bits()).kind(), NumberKind::Float);
}
