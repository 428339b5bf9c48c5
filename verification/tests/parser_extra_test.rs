use soul_msg::error::{ImportError, PackageError, SmsgParseError};
use soul_msg::ir::{FieldType, PrimitiveType};
use soul_msg::parser::{parse_field_type, parse_smsg};

#[test]
fn field_type_primitive() {
    assert_eq!(parse_field_type("int32").unwrap(), FieldType::Primitive(PrimitiveType::Int32));
    assert_eq!(parse_field_type("string").unwrap(), FieldType::Primitive(PrimitiveType::String));
    assert_eq!(parse_field_type("bool").unwrap(), FieldType::Primitive(PrimitiveType::Bool));
    assert_eq!(parse_field_type("uint64").unwrap(), FieldType::Primitive(PrimitiveType::UInt64));
}

#[test]
fn field_type_nested() {
    assert_eq!(parse_field_type("Position").unwrap(), FieldType::Nested("Position".to_string()));
    assert_eq!(parse_field_type("int32[").unwrap(), FieldType::Nested("int32[".to_string()));
}

#[test]
fn field_type_arrays() {
    assert_eq!(
        parse_field_type("float64[]").unwrap(),
        FieldType::Array(Box::new(FieldType::Primitive(PrimitiveType::Float64)), None)
    );
    assert_eq!(
        parse_field_type("int32[3]").unwrap(),
        FieldType::Array(Box::new(FieldType::Primitive(PrimitiveType::Int32)), Some(3))
    );
    assert_eq!(
        parse_field_type("int32[+7]").unwrap(),
        FieldType::Array(Box::new(FieldType::Primitive(PrimitiveType::Int32)), Some(7))
    );
    assert_eq!(
        parse_field_type("Point[2]tail").unwrap(),
        FieldType::Array(Box::new(FieldType::Nested("Point".to_string())), Some(2))
    );
}

#[test]
fn field_type_invalid_array_size() {
    for t in ["int32[x]", "int32[-1]", "int32[+]", "int32[99999999999999999999999]"] {
        let e = parse_field_type(t).unwrap_err();
        assert_eq!(e.message, "Invalid array size");
        assert_eq!((e.line, e.col), (1, 1));
    }
}

#[test]
fn parse_records_fields_in_order() {
    let input = "# a comment\n\nmessage Point {\n  float64 x\n  # inside\n\n  int32[2] y\n}\n";
    let file = parse_smsg(input).unwrap();
    assert_eq!(file.messages.len(), 1);
    let m = &file.messages[0];
    assert_eq!(m.name, "Point");
    assert_eq!((m.line, m.col), (3, 1));
    assert_eq!(m.fields.len(), 2);
    assert_eq!(m.fields[0].name, "x");
    assert_eq!(m.fields[0].field_type, FieldType::Primitive(PrimitiveType::Float64));
    assert_eq!((m.fields[0].line, m.fields[0].col), (4, 1));
    assert_eq!(m.fields[1].name, "y");
    assert_eq!(
        m.fields[1].field_type,
        FieldType::Array(Box::new(FieldType::Primitive(PrimitiveType::Int32)), Some(2))
    );
    assert_eq!(m.fields[1].line, 7);
}

#[test]
fn parse_brace_on_next_line() {
    let file = parse_smsg("message A\n{\n string s\n}").unwrap();
    assert_eq!(file.messages.len(), 1);
    assert_eq!(file.messages[0].fields.len(), 1);
}

#[test]
fn parse_ignores_single_word_lines_and_other_lines() {
    let file = parse_smsg("something else\nmessage A {\n lonely\n string s extra\n}\ntrailing").unwrap();
    assert_eq!(file.messages.len(), 1);
    assert_eq!(file.messages[0].fields.len(), 1);
    assert_eq!(file.messages[0].fields[0].name, "s");
}

#[test]
fn parse_line_numbers_start_after_leading_blank_lines() {
    let file = parse_smsg("\n\n  message A {\n}").unwrap();
    assert_eq!(file.messages[0].line, 1);
}

#[test]
fn parse_empty_input() {
    assert_eq!(parse_smsg("   \n  ").unwrap().messages.len(), 0);
}

#[test]
fn parse_missing_name() {
    let e = parse_smsg("message {\n}").unwrap_err();
    assert_eq!(e.message, "Missing message name");
    assert_eq!((e.line, e.col), (1, 1));
}

#[test]
fn parse_duplicate_message() {
    let e = parse_smsg("message A {\n}\nmessage A {\n}").unwrap_err();
    assert_eq!(e.message, "Duplicate message definition: A");
    assert_eq!((e.line, e.col), (3, 0));
}

#[test]
fn parse_missing_open_brace() {
    let e = parse_smsg("message A\nstring x\n}").unwrap_err();
    assert_eq!(e.message, "Expected '{'");
    assert_eq!((e.line, e.col), (1, 1));
}

#[test]
fn parse_missing_close_brace() {
    let e = parse_smsg("message A {\n string x").unwrap_err();
    assert_eq!(e.message, "Expected '}'");
    assert_eq!((e.line, e.col), (1, 1));
}

#[test]
fn parse_invalid_array_size_in_field() {
    let e = parse_smsg("message A {\n int32[z] x\n}").unwrap_err();
    assert_eq!(e.message, "Invalid array size");
    assert_eq!((e.line, e.col), (1, 1));
}

#[test]
fn parse_error_display() {
    let e = SmsgParseError::new("oops".to_string(), 3, 4);
    assert_eq!(e.to_string(), "Parse error at line 3, column 4: oops");
    let e = SmsgParseError::new("oops".to_string(), 0, 4);
    assert_eq!(e.to_string(), "oops");
    let e = SmsgParseError::file_not_found("a.smsg");
    assert_eq!(e.to_string(), "File not found: a.smsg");
    let e = SmsgParseError::invalid_type("foo", 12, 5);
    assert_eq!(e.to_string(), "Parse error at line 12, column 5: Invalid type: foo");
    let e = SmsgParseError::duplicate_message("A", 7);
    assert_eq!(e.to_string(), "Parse error at line 7, column 0: Duplicate message definition: A");
}

#[test]
fn package_and_import_error_display() {
    assert_eq!(PackageError::TomlParse("bad".to_string()).to_string(), "TOML parse error: bad");
    assert_eq!(
        PackageError::MissingPackageSection.to_string(),
        "Missing [package] section in package.toml"
    );
    assert_eq!(PackageError::MissingField("name".to_string()).to_string(), "Missing required field: name");
    assert_eq!(
        PackageError::InvalidEdition("2021".to_string()).to_string(),
        "Invalid edition: 2021. Expected '2026'"
    );
    assert_eq!(PackageError::FileNotFound("p".to_string()).to_string(), "File not found: p");
    let io = std::io::Error::new(std::io::ErrorKind::Other, "disk");
    assert_eq!(PackageError::IoError(io).to_string(), "IO error: disk");
    assert_eq!(ImportError::InvalidPackageName("x".to_string()).to_string(), "Invalid package name: x");
    assert_eq!(ImportError::MalformedSyntax("y".to_string()).to_string(), "Malformed import syntax: y");
    assert_eq!(ImportError::UnresolvableImport("z".to_string()).to_string(), "Cannot resolve import: z");
    let io = std::io::Error::new(std::io::ErrorKind::Other, "net");
    assert_eq!(ImportError::IoError(io).to_string(), "IO error: net");
}

#[test]
fn primitive_names_round_trip() {
    for p in [
        PrimitiveType::Bool,
        PrimitiveType::Int8,
        PrimitiveType::Int16,
        PrimitiveType::Int32,
        PrimitiveType::Int64,
        PrimitiveType::UInt8,
        PrimitiveType::UInt16,
        PrimitiveType::UInt32,
        PrimitiveType::UInt64,
        PrimitiveType::Float32,
        PrimitiveType::Float64,
        PrimitiveType::String,
    ] {
        assert_eq!(PrimitiveType::from_str(p.name()), Some(p));
        assert_eq!(p.to_string(), p.name());
    }
    assert_eq!(PrimitiveType::from_str("int128"), None);
}

#[test]
fn try_parse_refuses_close_bracket_before_open() {
    assert!(soul_msg::parser::try_parse_smsg("message A {\n Foo]x[ f\n}").is_none());
    assert!(soul_msg::parser::try_parse_smsg("message A {\n Foo[2] f\n}").unwrap().is_ok());
}
