use soul_msg::codegen::derive_gen::{generate_message_meta, generate_smsg_envelope, DeriveGenerator};
use soul_msg::hash::compute_message_hash;
use soul_msg::parser::parse_smsg;

#[test]
fn meta_impl_carries_hash_and_name() {
    let file = parse_smsg("message Ping {\n int32 seq\n}").unwrap();
    let m = &file.messages[0];
    let hash = compute_message_hash(m);
    let lits: Vec<String> = hash.iter().map(|b| format!("{}u8", b)).collect();
    let expected = format!(
        "impl MessageMeta for Ping {{ fn version_hash() -> [u8; 32] {{ [{}] }} fn message_name() -> &'static str {{ \"Ping\" }} }}\n",
        lits.join(", ")
    );
    assert_eq!(generate_message_meta(m), expected);
}

#[test]
fn envelope_wraps_payload() {
    let file = parse_smsg("message Ping {\n}").unwrap();
    let text = generate_smsg_envelope(&file.messages[0]);
    assert_eq!(
        text,
        "#[derive(Debug, Clone, PartialEq)] pub struct PingEnvelope { pub version_hash: [u8; 32], pub payload: Ping, } impl PingEnvelope { pub fn new(payload: Ping) -> Self { Self { version_hash: Ping::version_hash(), payload, } } pub fn into_parts(self) -> ([u8; 32], Ping) { (self.version_hash, self.payload) } }\n"
    );
}

#[test]
fn generate_puts_trait_then_impls_then_envelopes() {
    let file = parse_smsg("message A {\n}\nmessage B {\n}").unwrap();
    let text = DeriveGenerator::new().generate(&file);
    let expected = format!(
        "pub trait MessageMeta {{ fn version_hash() -> [u8; 32]; fn message_name() -> &'static str; }}\n{}{}{}{}",
        generate_message_meta(&file.messages[0]),
        generate_message_meta(&file.messages[1]),
        generate_smsg_envelope(&file.messages[0]),
        generate_smsg_envelope(&file.messages[1]),
    );
    assert_eq!(text, expected);
}

#[test]
fn generated_text_is_rust() {
    let file = parse_smsg("message A {\n string s\n}").unwrap();
    let text = DeriveGenerator::default().generate(&file);
    let parsed: Result<proc_macro2::TokenStream, _> = text.parse();
    assert!(parsed.is_ok());
}
