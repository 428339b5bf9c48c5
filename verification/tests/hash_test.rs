use soul_msg::hash::{compare_hashes, compare_messages, compute_message_hash, CompatibilityStatus};
use soul_msg::ir::{Field, FieldType, MessageDef, PrimitiveType};

fn field(name: &str, field_type: FieldType, line: usize) -> Field {
    Field { name: name.to_string(), field_type, line, col: 1 }
}

fn message(name: &str, fields: Vec<Field>) -> MessageDef {
    MessageDef { name: name.to_string(), fields, line: 1, col: 1 }
}

#[test]
fn test_compute_message_hash_returns_32_bytes() {
    let msg = MessageDef {
        name: "TestMessage".to_string(),
        fields: vec![Field {
            name: "field1".to_string(),
            field_type: FieldType::Primitive(PrimitiveType::String),
            line: 1,
            col: 1,
        }],
        line: 1,
        col: 1,
    };
    let hash = compute_message_hash(&msg);
    assert_eq!(hash.len(), 32);
}

#[test]
fn test_different_messages_produce_different_hashes() {
    let msg1 = message("MessageA", vec![field("field1", FieldType::Primitive(PrimitiveType::String), 1)]);
    let msg2 = message("MessageB", vec![field("field1", FieldType::Primitive(PrimitiveType::String), 1)]);
    let hash1 = compute_message_hash(&msg1);
    let hash2 = compute_message_hash(&msg2);
    assert_ne!(hash1, hash2);
}

#[test]
fn test_field_addition_changes_hash() {
    let msg1 = message("TestMessage", vec![field("field1", FieldType::Primitive(PrimitiveType::String), 1)]);
    let msg2 = message(
        "TestMessage",
        vec![
            field("field1", FieldType::Primitive(PrimitiveType::String), 1),
            field("field2", FieldType::Primitive(PrimitiveType::Int32), 2),
        ],
    );
    let hash1 = compute_message_hash(&msg1);
    let hash2 = compute_message_hash(&msg2);
    assert_ne!(hash1, hash2);
}

#[test]
fn test_field_removal_changes_hash() {
    let msg1 = message(
        "TestMessage",
        vec![
            field("field1", FieldType::Primitive(PrimitiveType::String), 1),
            field("field2", FieldType::Primitive(PrimitiveType::Int32), 2),
        ],
    );
    let msg2 = message("TestMessage", vec![field("field1", FieldType::Primitive(PrimitiveType::String), 1)]);
    let hash1 = compute_message_hash(&msg1);
    let hash2 = compute_message_hash(&msg2);
    assert_ne!(hash1, hash2);
}

#[test]
fn test_field_type_change_changes_hash() {
    let msg1 = message("TestMessage", vec![field("field1", FieldType::Primitive(PrimitiveType::String), 1)]);
    let msg2 = message("TestMessage", vec![field("field1", FieldType::Primitive(PrimitiveType::Int32), 1)]);
    let hash1 = compute_message_hash(&msg1);
    let hash2 = compute_message_hash(&msg2);
    assert_ne!(hash1, hash2);
}

#[test]
fn test_field_name_change_changes_hash() {
    let msg1 = message("TestMessage", vec![field("fieldA", FieldType::Primitive(PrimitiveType::String), 1)]);
    let msg2 = message("TestMessage", vec![field("fieldB", FieldType::Primitive(PrimitiveType::String), 1)]);
    let hash1 = compute_message_hash(&msg1);
    let hash2 = compute_message_hash(&msg2);
    assert_ne!(hash1, hash2);
}

#[test]
fn test_array_type_changes_hash() {
    let msg1 = message("TestMessage", vec![field("field1", FieldType::Primitive(PrimitiveType::String), 1)]);
    let msg2 = message(
        "TestMessage",
        vec![field(
            "field1",
            FieldType::Array(Box::new(FieldType::Primitive(PrimitiveType::String)), None),
            1,
        )],
    );
    let hash1 = compute_message_hash(&msg1);
    let hash2 = compute_message_hash(&msg2);
    assert_ne!(hash1, hash2);
}

#[test]
fn test_nested_type_changes_hash() {
    let msg1 = message("TestMessage", vec![field("field1", FieldType::Primitive(PrimitiveType::String), 1)]);
    let msg2 = message("TestMessage", vec![field("field1", FieldType::Nested("CustomType".to_string()), 1)]);
    let hash1 = compute_message_hash(&msg1);
    let hash2 = compute_message_hash(&msg2);
    assert_ne!(hash1, hash2);
}

#[test]
fn test_compare_hashes_identical() {
    let hash1: [u8; 32] = [0u8; 32];
    let hash2: [u8; 32] = [0u8; 32];
    assert!(compare_hashes(&hash1, &hash2));
}

#[test]
fn test_compare_hashes_different() {
    let hash1: [u8; 32] = [0u8; 32];
    let hash2: [u8; 32] = [1u8; 32];
    assert!(!compare_hashes(&hash1, &hash2));
}

#[test]
fn test_compare_messages_all_match() {
    let messages1 = vec![("Msg1", [0u8; 32]), ("Msg2", [1u8; 32])];
    let messages2 = vec![("Msg1", [0u8; 32]), ("Msg2", [1u8; 32])];
    let report = compare_messages(&messages1, &messages2);
    assert_eq!(report.status, CompatibilityStatus::Match);
    assert!(report.details.is_empty());
}

#[test]
fn test_compare_messages_mismatch() {
    let messages1 = vec![("Msg1", [0u8; 32])];
    let messages2 = vec![("Msg1", [1u8; 32])];
    let report = compare_messages(&messages1, &messages2);
    assert_eq!(report.status, CompatibilityStatus::Mismatch);
    assert_eq!(report.details.len(), 1);
    assert_eq!(report.details[0].message_name, "Msg1");
}

#[test]
fn test_compare_messages_different_count() {
    let messages1 = vec![("Msg1", [0u8; 32]), ("Msg2", [1u8; 32])];
    let messages2 = vec![("Msg1", [0u8; 32])];
    let report = compare_messages(&messages1, &messages2);
    assert_eq!(report.status, CompatibilityStatus::Mismatch);
    assert_eq!(report.details.len(), 1);
}

#[test]
fn test_compare_messages_missing_in_both() {
    let messages1 = vec![("Msg1", [0u8; 32])];
    let messages2 = vec![("Msg2", [1u8; 32])];
    let report = compare_messages(&messages1, &messages2);
    assert_eq!(report.status, CompatibilityStatus::Mismatch);
    assert_eq!(report.details.len(), 2);
}
