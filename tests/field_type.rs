use appendable::field_type::{FieldFlags, FieldType};

#[test]
fn empty_flags_render_unknown() {
    let f = FieldFlags::new();
    assert_eq!(f.to_bits(), 0);
    assert!(!f.contains(FieldType::String));
    assert_eq!(f.typescript_type(), "unknown");
}

#[test]
fn set_adds_only_that_kind() {
    let mut f = FieldFlags::new();
    f.set(FieldType::Array);
    assert_eq!(f.to_bits(), 8);
    assert!(f.contains(FieldType::Array));
    assert!(!f.contains(FieldType::Object));
    f.set(FieldType::Array);
    assert_eq!(f.to_bits(), 8);
}

#[test]
fn all_kinds_render_in_bit_order() {
    let mut f = FieldFlags::new();
    f.set(FieldType::Null);
    f.set(FieldType::Boolean);
    f.set(FieldType::Array);
    f.set(FieldType::Object);
    f.set(FieldType::Number);
    f.set(FieldType::String);
    assert_eq!(f.to_bits(), 63);
    assert_eq!(f.typescript_type(), "string | number | Record | any[] | boolean | null");
}

#[test]
fn null_only_renders_null() {
    let mut f = FieldFlags::new();
    f.set(FieldType::Null);
    assert_eq!(f.typescript_type(), "null");
}
