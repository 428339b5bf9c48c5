//! Errors of schema parsing, package loading and import resolution.
use vstd::prelude::*;

use crate::text::{decimal, decimal_chars, push_chars};

verus! {

#[verifier::external_type_specification]
#[verifier::external_body]
pub struct ExIoError(std::io::Error);

/// The text with which std displays an I/O error.
///
/// Calls `ToString::to_string` on a `std::io::Error`. What that text is
/// depends on the operating system's message for the error code, so the
/// contract states nothing of it.
#[verifier::external_body]
fn io_error_text(e: &std::io::Error) -> String {
    e.to_string()
}

/// An error found while parsing a schema, with the line and column it was
/// found at (line 0 where no position applies).
#[derive(Debug)]
pub struct SmsgParseError {
    pub message: String,
    pub line: usize,
    pub col: usize,
}

pub struct ParseErrorView {
    pub message: Seq<char>,
    pub line: nat,
    pub col: nat,
}

impl View for SmsgParseError {
    type V = ParseErrorView;

    open spec fn view(&self) -> ParseErrorView {
        ParseErrorView { message: self.message@, line: self.line as nat, col: self.col as nat }
    }
}

/// How a parse error displays: with its position when its line is not 0.
pub open spec fn parse_error_text(e: ParseErrorView) -> Seq<char> {
    if e.line > 0 {
        "Parse error at line "@ + decimal(e.line) + ", column "@ + decimal(e.col) + ": "@
            + e.message
    } else {
        e.message
    }
}

impl SmsgParseError {
    pub fn new(message: String, line: usize, col: usize) -> (r: Self)
        ensures
            r@ == (ParseErrorView { message: message@, line: line as nat, col: col as nat }),
    {
        Self { message, line, col }
    }

    pub fn file_not_found(path: &str) -> (r: Self)
        ensures
            r@ == (ParseErrorView { message: "File not found: "@ + path@, line: 0, col: 0 }),
    {
        let mut message = String::from_str("File not found: ");
        message.append(path);
        Self { message, line: 0, col: 0 }
    }

    pub fn invalid_type(type_text: &str, line: usize, col: usize) -> (r: Self)
        ensures
            r@ == (ParseErrorView {
                message: "Invalid type: "@ + type_text@,
                line: line as nat,
                col: col as nat,
            }),
    {
        let mut message = String::from_str("Invalid type: ");
        message.append(type_text);
        Self { message, line, col }
    }

    pub fn duplicate_message(name: &str, line_num: usize) -> (r: Self)
        ensures
            r@ == (ParseErrorView {
                message: "Duplicate message definition: "@ + name@,
                line: line_num as nat,
                col: 0,
            }),
    {
        let mut message = String::from_str("Duplicate message definition: ");
        message.append(name);
        Self { message, line: line_num, col: 0 }
    }

    /// The text that displays this error.
    pub fn to_string(&self) -> (r: String)
        ensures
            r@ == parse_error_text(self@),
    {
        if self.line > 0 {
            let mut s = String::from_str("Parse error at line ");
            push_chars(&mut s, &decimal_chars(self.line));
            s.append(", column ");
            push_chars(&mut s, &decimal_chars(self.col));
            s.append(": ");
            s.append(self.message.as_str());
            s
        } else {
            String::from_str(self.message.as_str())
        }
    }
}

/// An error found while loading a package description.
#[derive(Debug)]
pub enum PackageError {
    TomlParse(String),
    MissingPackageSection,
    MissingField(String),
    InvalidEdition(String),
    FileNotFound(String),
    IoError(std::io::Error),
}

impl PackageError {
    /// The text that displays this error. For an I/O error it is
    /// `IO error: ` followed by the text std gives for the error.
    pub fn to_string(&self) -> (r: String)
        ensures
            match self {
                PackageError::TomlParse(msg) => r@ == "TOML parse error: "@ + msg@,
                PackageError::MissingPackageSection => r@
                    == "Missing [package] section in package.toml"@,
                PackageError::MissingField(field) => r@ == "Missing required field: "@ + field@,
                PackageError::InvalidEdition(ed) => r@ == "Invalid edition: "@ + ed@
                    + ". Expected '2026'"@,
                PackageError::FileNotFound(path) => r@ == "File not found: "@ + path@,
                PackageError::IoError(_) => exists|t: Seq<char>| r@ == "IO error: "@ + t,
            },
    {
        match self {
            PackageError::TomlParse(msg) => {
                let mut s = String::from_str("TOML parse error: ");
                s.append(msg.as_str());
                s
            },
            PackageError::MissingPackageSection => {
                String::from_str("Missing [package] section in package.toml")
            },
            PackageError::MissingField(field) => {
                let mut s = String::from_str("Missing required field: ");
                s.append(field.as_str());
                s
            },
            PackageError::InvalidEdition(ed) => {
                let mut s = String::from_str("Invalid edition: ");
                s.append(ed.as_str());
                s.append(". Expected '2026'");
                s
            },
            PackageError::FileNotFound(path) => {
                let mut s = String::from_str("File not found: ");
                s.append(path.as_str());
                s
            },
            PackageError::IoError(e) => {
                let t = io_error_text(e);
                let mut s = String::from_str("IO error: ");
                s.append(t.as_str());
                s
            },
        }
    }
}

/// An error found while resolving the imports of a schema.
#[derive(Debug)]
pub enum ImportError {
    InvalidPackageName(String),
    MalformedSyntax(String),
    UnresolvableImport(String),
    IoError(std::io::Error),
}

impl ImportError {
    /// The text that displays this error. For an I/O error it is
    /// `IO error: ` followed by the text std gives for the error.
    pub fn to_string(&self) -> (r: String)
        ensures
            match self {
                ImportError::InvalidPackageName(name) => r@ == "Invalid package name: "@
                    + name@,
                ImportError::MalformedSyntax(msg) => r@ == "Malformed import syntax: "@ + msg@,
                ImportError::UnresolvableImport(imp) => r@ == "Cannot resolve import: "@ + imp@,
                ImportError::IoError(_) => exists|t: Seq<char>| r@ == "IO error: "@ + t,
            },
    {
        match self {
            ImportError::InvalidPackageName(name) => {
                let mut s = String::from_str("Invalid package name: ");
                s.append(name.as_str());
                s
            },
            ImportError::MalformedSyntax(msg) => {
                let mut s = String::from_str("Malformed import syntax: ");
                s.append(msg.as_str());
                s
            },
            ImportError::UnresolvableImport(imp) => {
                let mut s = String::from_str("Cannot resolve import: ");
                s.append(imp.as_str());
                s
            },
            ImportError::IoError(e) => {
                let t = io_error_text(e);
                let mut s = String::from_str("IO error: ");
                s.append(t.as_str());
                s
            },
        }
    }
}

} // verus!
