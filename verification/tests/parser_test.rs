use soul_msg::parser::parse_smsg;

#[test]
fn test_parse_simple_message() {
    let input = r#"message ChatMessage {
    string sender
    string content
    int64 timestamp
}"#;
    let result = parse_smsg(input).unwrap();
    assert_eq!(result.messages.len(), 1);
    let msg = &result.messages[0];
    assert_eq!(msg.name, "ChatMessage");
    assert_eq!(msg.fields.len(), 3);
    assert_eq!(msg.fields[0].name, "sender");
}

#[test]
fn test_parse_array_type() {
    let input = r#"message Test {
    float64[] values
    int32[3] point
}"#;
    let result = parse_smsg(input).unwrap();
    assert_eq!(result.messages.len(), 1);
}

#[test]
fn test_parse_nested_type() {
    let input = r#"message Position {
    float64 x
    float64 y
}

message RobotState {
    string name
    Position position
}"#;
    let result = parse_smsg(input).unwrap();
    assert_eq!(result.messages.len(), 2);
}
