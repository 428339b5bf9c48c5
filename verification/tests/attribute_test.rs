use soul_msg::attribute::{SmsgAttribute, SmsgCategory};

#[test]
fn legacy_string_names_a_file() {
    let a = SmsgAttribute::parse("\"tests/fixtures/messages.smsg\"").unwrap();
    assert_eq!(a.category, SmsgCategory::File);
    assert_eq!(a.path, "tests/fixtures/messages.smsg");
}

#[test]
fn settings_with_file_category() {
    let a = SmsgAttribute::parse("category = file, path = \"tests/fixtures/messages.smsg\"").unwrap();
    assert_eq!(a.category, SmsgCategory::File);
    assert_eq!(a.path, "tests/fixtures/messages.smsg");
}

#[test]
fn settings_with_package_category() {
    let a = SmsgAttribute::parse("category = package, path = \"tests/fixtures/packages/testpkg\"").unwrap();
    assert_eq!(a.category, SmsgCategory::Package);
    assert_eq!(a.path, "tests/fixtures/packages/testpkg");
}

#[test]
fn category_defaults_to_file() {
    let a = SmsgAttribute::parse("path = \"a.smsg\"").unwrap();
    assert_eq!(a.category, SmsgCategory::File);
    assert_eq!(a.path, "a.smsg");
}

#[test]
fn spacing_around_settings_is_ignored() {
    let a = SmsgAttribute::parse("  category=package ,path=  \"pkg\"  ").unwrap();
    assert_eq!(a.category, SmsgCategory::Package);
    assert_eq!(a.path, "pkg");
}

#[test]
fn later_settings_override_earlier_ones() {
    let a = SmsgAttribute::parse("category = package, path = \"a\", category = file, path = \"b\"").unwrap();
    assert_eq!(a.category, SmsgCategory::File);
    assert_eq!(a.path, "b");
}

#[test]
fn invalid_category_is_an_error() {
    let e = SmsgAttribute::parse("category = invalid, path = \"test.smsg\"").unwrap_err();
    assert_eq!(e, "Invalid category: invalid. Expected 'file' or 'package'");
}

#[test]
fn category_without_value_is_an_error() {
    let e = SmsgAttribute::parse("category, path = \"test.smsg\"").unwrap_err();
    assert_eq!(e, "Invalid category: . Expected 'file' or 'package'");
}

#[test]
fn missing_path_is_an_error() {
    let e = SmsgAttribute::parse("category = file").unwrap_err();
    assert_eq!(e, "path is required");
}

#[test]
fn malformed_argument_is_an_error() {
    let e = SmsgAttribute::parse("not_an_attribute").unwrap_err();
    assert_eq!(e, "expected `type = identifier` or path string");
}

#[test]
fn unknown_setting_is_an_error() {
    let e = SmsgAttribute::parse("type = file, path = \"a\", extra = 1").unwrap_err();
    assert_eq!(e, "expected `type = identifier` or path string");
}

#[test]
fn empty_parts_are_skipped() {
    let a = SmsgAttribute::parse("type = package, , path = \"p\",").unwrap();
    assert_eq!(a.category, SmsgCategory::Package);
    assert_eq!(a.path, "p");
    assert_eq!(SmsgAttribute::parse("").unwrap_err(), "path is required");
}

#[test]
fn type_key_selects_package() {
    let a = SmsgAttribute::parse("type = package, path = \"packages/mypackage\"").unwrap();
    assert_eq!(a.category, SmsgCategory::Package);
    assert_eq!(a.path, "packages/mypackage");
}

#[test]
fn type_key_selects_file() {
    let a = SmsgAttribute::parse("type = file, path = \"messages/mymsg.smsg\"").unwrap();
    assert_eq!(a.category, SmsgCategory::File);
    assert_eq!(a.path, "messages/mymsg.smsg");
}

#[test]
fn invalid_type_is_an_error() {
    let e = SmsgAttribute::parse("type = invalid, path = \"test.smsg\"").unwrap_err();
    assert_eq!(e, "Invalid category: invalid. Expected 'file' or 'package'");
}

#[test]
fn empty_quoted_path_in_settings_is_an_error() {
    let e = SmsgAttribute::parse("path = \"\"").unwrap_err();
    assert_eq!(e, "path is required");
}
