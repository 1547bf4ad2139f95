use appendable::index_file::{keys_equal, IndexKey};
use appendable::field_type::FieldType;

fn s(v: &str) -> IndexKey {
    IndexKey::String(v.to_string())
}

fn n(v: &str) -> IndexKey {
    IndexKey::Number(v.to_string())
}

#[test]
fn object_equality_ignores_member_order() {
    let a = IndexKey::Object(vec![("x".to_string(), n("1")), ("y".to_string(), s("z"))]);
    let b = IndexKey::Object(vec![("y".to_string(), s("z")), ("x".to_string(), n("1"))]);
    assert!(keys_equal(&a, &b));
    assert_eq!(a, b);
}

#[test]
fn object_equality_compares_values_by_name() {
    let a = IndexKey::Object(vec![("x".to_string(), n("1")), ("y".to_string(), n("2"))]);
    let b = IndexKey::Object(vec![("x".to_string(), n("2")), ("y".to_string(), n("1"))]);
    assert_ne!(a, b);
    let c = IndexKey::Object(vec![("x".to_string(), n("1"))]);
    assert_ne!(a, c);
}

#[test]
fn arrays_compare_in_order() {
    let a = IndexKey::Array(vec![n("1"), n("2")]);
    let b = IndexKey::Array(vec![n("2"), n("1")]);
    assert_ne!(a, b);
    assert_eq!(a, IndexKey::Array(vec![n("1"), n("2")]));
}

#[test]
fn kinds_differ_even_with_the_same_text() {
    assert_ne!(s("1"), n("1"));
    assert_ne!(IndexKey::Null, IndexKey::Boolean(false));
    assert_eq!(IndexKey::Null, IndexKey::Null);
    assert_eq!(IndexKey::Boolean(true), IndexKey::Boolean(true));
}

#[test]
fn key_kinds_match_field_types() {
    assert_eq!(s("a").field_type(), FieldType::String);
    assert_eq!(n("1").field_type(), FieldType::Number);
    assert_eq!(IndexKey::Boolean(true).field_type(), FieldType::Boolean);
    assert_eq!(IndexKey::Null.field_type(), FieldType::Null);
    assert_eq!(IndexKey::Array(vec![]).field_type(), FieldType::Array);
    assert_eq!(IndexKey::Object(vec![]).field_type(), FieldType::Object);
}

#[test]
fn keys_render_as_text() {
    assert_eq!(s("matteo").to_string(), "matteo");
    assert_eq!(n("-1.5").to_string(), "-1.5");
    assert_eq!(IndexKey::Boolean(true).to_string(), "true");
    assert_eq!(IndexKey::Boolean(false).to_string(), "false");
    assert_eq!(IndexKey::Null.to_string(), "null");
    assert_eq!(IndexKey::Array(vec![]).to_string(), "[]");
    assert_eq!(IndexKey::Array(vec![s("a"), s("b"), s("c")]).to_string(), "[a, b, c]");
    let o = IndexKey::Object(vec![
        ("x".to_string(), n("1")),
        ("y".to_string(), IndexKey::Array(vec![n("2")])),
    ]);
    assert_eq!(o.to_string(), "{x: 1, y: [2]}");
    assert_eq!(IndexKey::Object(vec![]).to_string(), "{}");
}
