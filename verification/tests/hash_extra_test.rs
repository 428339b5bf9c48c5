use soul_msg::hash::{compare_messages, compute_message_hash, CompatibilityStatus};
use soul_msg::ir::{Field, FieldType, MessageDef, PrimitiveType};

fn field(name: &str, field_type: FieldType, line: usize) -> Field {
    Field { name: name.to_string(), field_type, line, col: 1 }
}

#[test]
fn hash_is_blake3_of_canonical_bytes() {
    let msg = MessageDef {
        name: "TestMessage".to_string(),
        fields: vec![field("field1", FieldType::Primitive(PrimitiveType::String), 1)],
        line: 1,
        col: 1,
    };
    let expected = *blake3::hash(b"TestMessagefield1primitive:string").as_bytes();
    assert_eq!(compute_message_hash(&msg), expected);
}

#[test]
fn hash_of_array_and_nested_fields() {
    let msg = MessageDef {
        name: "M".to_string(),
        fields: vec![
            field("a", FieldType::Array(Box::new(FieldType::Primitive(PrimitiveType::Int32)), Some(3)), 1),
            field("b", FieldType::Array(Box::new(FieldType::Nested("P".to_string())), None), 2),
            field("c", FieldType::Nested("Q".to_string()), 3),
        ],
        line: 1,
        col: 1,
    };
    let expected =
        *blake3::hash(b"Maarray:primitive:int32:3barray:nested:Pcnested:Q").as_bytes();
    assert_eq!(compute_message_hash(&msg), expected);
}

#[test]
fn hash_ignores_positions() {
    let msg1 = MessageDef {
        name: "M".to_string(),
        fields: vec![field("a", FieldType::Primitive(PrimitiveType::Bool), 1)],
        line: 1,
        col: 1,
    };
    let msg2 = MessageDef {
        name: "M".to_string(),
        fields: vec![field("a", FieldType::Primitive(PrimitiveType::Bool), 40)],
        line: 39,
        col: 7,
    };
    assert_eq!(compute_message_hash(&msg1), compute_message_hash(&msg2));
}

#[test]
fn compare_reports_details_in_order() {
    let messages1 = vec![("A", [1u8; 32]), ("B", [2u8; 32]), ("C", [3u8; 32])];
    let messages2 = vec![("C", [3u8; 32]), ("B", [9u8; 32]), ("D", [4u8; 32])];
    let report = compare_messages(&messages1, &messages2);
    assert_eq!(report.status, CompatibilityStatus::Mismatch);
    assert_eq!(report.details.len(), 3);
    assert_eq!(report.details[0].message_name, "A");
    assert_eq!(report.details[0].hash1, [1u8; 32]);
    assert_eq!(report.details[0].hash2, [0u8; 32]);
    assert_eq!(report.details[1].message_name, "B");
    assert_eq!(report.details[1].hash1, [2u8; 32]);
    assert_eq!(report.details[1].hash2, [9u8; 32]);
    assert_eq!(report.details[2].message_name, "D");
    assert_eq!(report.details[2].hash1, [0u8; 32]);
    assert_eq!(report.details[2].hash2, [4u8; 32]);
}

#[test]
fn compare_uses_last_hash_of_repeated_name() {
    let messages1 = vec![("X", [1u8; 32])];
    let messages2 = vec![("X", [1u8; 32]), ("X", [2u8; 32])];
    let report = compare_messages(&messages1, &messages2);
    assert_eq!(report.status, CompatibilityStatus::Mismatch);
    assert_eq!(report.details.len(), 1);
    assert_eq!(report.details[0].hash2, [2u8; 32]);
}

#[test]
fn compare_of_list_with_itself_matches() {
    let messages = vec![("A", [1u8; 32]), ("B", [2u8; 32])];
    let report = compare_messages(&messages, &messages);
    assert_eq!(report.status, CompatibilityStatus::Match);
}

#[test]
fn compare_status_is_symmetric() {
    let a = vec![("A", [1u8; 32]), ("B", [2u8; 32])];
    let b = vec![("B", [2u8; 32]), ("A", [1u8; 32])];
    assert_eq!(compare_messages(&a, &b).status, CompatibilityStatus::Match);
    assert_eq!(compare_messages(&b, &a).status, CompatibilityStatus::Match);
    let c = vec![("A", [1u8; 32])];
    assert_eq!(compare_messages(&a, &c).status, CompatibilityStatus::Mismatch);
    assert_eq!(compare_messages(&c, &a).status, CompatibilityStatus::Mismatch);
}

#[test]
fn compare_empty_lists_match() {
    let empty: Vec<(&str, [u8; 32])> = Vec::new();
    let report = compare_messages(&empty, &empty);
    assert_eq!(report.status, CompatibilityStatus::Match);
    assert!(report.details.is_empty());
}

#[test]
fn compare_swapped_exchanges_hashes() {
    let a = vec![("A", [1u8; 32]), ("B", [2u8; 32]), ("C", [3u8; 32])];
    let b = vec![("C", [3u8; 32]), ("B", [9u8; 32]), ("D", [4u8; 32])];
    let ab = compare_messages(&a, &b);
    let ba = compare_messages(&b, &a);
    assert_eq!(ab.status, ba.status);
    let mut swapped: Vec<(String, [u8; 32], [u8; 32])> =
        ab.details.iter().map(|d| (d.message_name.clone(), d.hash2, d.hash1)).collect();
    let mut other: Vec<(String, [u8; 32], [u8; 32])> =
        ba.details.iter().map(|d| (d.message_name.clone(), d.hash1, d.hash2)).collect();
    swapped.sort();
    other.sort();
    assert_eq!(swapped, other);
}
