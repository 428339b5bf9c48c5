//! The parsed form of a `.smsg` schema and its mathematical view.
use vstd::prelude::*;

use crate::text::str_eq;

verus! {

/// A built-in scalar type of the schema language.
#[derive(Debug, Clone, Copy, PartialEq, Eq, Structural)]
pub enum PrimitiveType {
    Bool,
    Int8,
    Int16,
    Int32,
    Int64,
    UInt8,
    UInt16,
    UInt32,
    UInt64,
    Float32,
    Float64,
    String,
}

/// The keyword that names a primitive type in a schema.
pub open spec fn primitive_name(p: PrimitiveType) -> Seq<char> {
    match p {
        PrimitiveType::Bool => "bool"@,
        PrimitiveType::Int8 => "int8"@,
        PrimitiveType::Int16 => "int16"@,
        PrimitiveType::Int32 => "int32"@,
        PrimitiveType::Int64 => "int64"@,
        PrimitiveType::UInt8 => "uint8"@,
        PrimitiveType::UInt16 => "uint16"@,
        PrimitiveType::UInt32 => "uint32"@,
        PrimitiveType::UInt64 => "uint64"@,
        PrimitiveType::Float32 => "float32"@,
        PrimitiveType::Float64 => "float64"@,
        PrimitiveType::String => "string"@,
    }
}

/// The primitive type whose keyword is `s`, if any.
pub open spec fn primitive_from_name(s: Seq<char>) -> Option<PrimitiveType> {
    if s == "bool"@ {
        Some(PrimitiveType::Bool)
    } else if s == "int8"@ {
        Some(PrimitiveType::Int8)
    } else if s == "int16"@ {
        Some(PrimitiveType::Int16)
    } else if s == "int32"@ {
        Some(PrimitiveType::Int32)
    } else if s == "int64"@ {
        Some(PrimitiveType::Int64)
    } else if s == "uint8"@ {
        Some(PrimitiveType::UInt8)
    } else if s == "uint16"@ {
        Some(PrimitiveType::UInt16)
    } else if s == "uint32"@ {
        Some(PrimitiveType::UInt32)
    } else if s == "uint64"@ {
        Some(PrimitiveType::UInt64)
    } else if s == "float32"@ {
        Some(PrimitiveType::Float32)
    } else if s == "float64"@ {
        Some(PrimitiveType::Float64)
    } else if s == "string"@ {
        Some(PrimitiveType::String)
    } else {
        None
    }
}

impl PrimitiveType {
    /// The keyword of this type.
    pub fn name(&self) -> (r: &'static str)
        ensures
            r@ == primitive_name(*self),
    {
        match self {
            PrimitiveType::Bool => "bool",
            PrimitiveType::Int8 => "int8",
            PrimitiveType::Int16 => "int16",
            PrimitiveType::Int32 => "int32",
            PrimitiveType::Int64 => "int64",
            PrimitiveType::UInt8 => "uint8",
            PrimitiveType::UInt16 => "uint16",
            PrimitiveType::UInt32 => "uint32",
            PrimitiveType::UInt64 => "uint64",
            PrimitiveType::Float32 => "float32",
            PrimitiveType::Float64 => "float64",
            PrimitiveType::String => "string",
        }
    }

    /// The keyword of this type, as the text that displays it.
    pub fn to_string(&self) -> (r: String)
        ensures
            r@ == primitive_name(*self),
    {
        String::from_str(self.name())
    }

    /// The primitive type named by `s`, or `None` where `s` names none.
    pub fn from_str(s: &str) -> (r: Option<PrimitiveType>)
        ensures
            r == primitive_from_name(s@),
    {
        if str_eq(s, "bool") {
            Some(PrimitiveType::Bool)
        } else if str_eq(s, "int8") {
            Some(PrimitiveType::Int8)
        } else if str_eq(s, "int16") {
            Some(PrimitiveType::Int16)
        } else if str_eq(s, "int32") {
            Some(PrimitiveType::Int32)
        } else if str_eq(s, "int64") {
            Some(PrimitiveType::Int64)
        } else if str_eq(s, "uint8") {
            Some(PrimitiveType::UInt8)
        } else if str_eq(s, "uint16") {
            Some(PrimitiveType::UInt16)
        } else if str_eq(s, "uint32") {
            Some(PrimitiveType::UInt32)
        } else if str_eq(s, "uint64") {
            Some(PrimitiveType::UInt64)
        } else if str_eq(s, "float32") {
            Some(PrimitiveType::Float32)
        } else if str_eq(s, "float64") {
            Some(PrimitiveType::Float64)
        } else if str_eq(s, "string") {
            Some(PrimitiveType::String)
        } else {
            None
        }
    }
}

/// The type of a field: a primitive, an array of a type (with an optional
/// fixed length), or another message by name.
#[derive(Debug, PartialEq)]
pub enum FieldType {
    Primitive(PrimitiveType),
    Array(Box<FieldType>, Option<usize>),
    Nested(String),
}

pub enum FieldTypeView {
    Primitive(PrimitiveType),
    Array(Box<FieldTypeView>, Option<usize>),
    Nested(Seq<char>),
}

pub open spec fn field_type_view(t: FieldType) -> FieldTypeView
    decreases t,
{
    match t {
        FieldType::Primitive(p) => FieldTypeView::Primitive(p),
        FieldType::Array(inner, n) => FieldTypeView::Array(Box::new(field_type_view(*inner)), n),
        FieldType::Nested(name) => FieldTypeView::Nested(name@),
    }
}

impl View for FieldType {
    type V = FieldTypeView;

    open spec fn view(&self) -> FieldTypeView {
        field_type_view(*self)
    }
}

/// One field of a message, with the line it was declared on.
#[derive(Debug, PartialEq)]
pub struct Field {
    pub name: String,
    pub field_type: FieldType,
    pub line: usize,
    pub col: usize,
}

pub struct FieldView {
    pub name: Seq<char>,
    pub field_type: FieldTypeView,
    pub line: nat,
    pub col: nat,
}

impl View for Field {
    type V = FieldView;

    open spec fn view(&self) -> FieldView {
        FieldView {
            name: self.name@,
            field_type: self.field_type@,
            line: self.line as nat,
            col: self.col as nat,
        }
    }
}

/// A message definition: its name, its fields in order, and where it starts.
#[derive(Debug, PartialEq)]
pub struct MessageDef {
    pub name: String,
    pub fields: Vec<Field>,
    pub line: usize,
    pub col: usize,
}

pub struct MessageView {
    pub name: Seq<char>,
    pub fields: Seq<FieldView>,
    pub line: nat,
    pub col: nat,
}

pub open spec fn fields_view(fields: Seq<Field>) -> Seq<FieldView> {
    fields.map_values(|f: Field| f@)
}

impl View for MessageDef {
    type V = MessageView;

    open spec fn view(&self) -> MessageView {
        MessageView {
            name: self.name@,
            fields: fields_view(self.fields@),
            line: self.line as nat,
            col: self.col as nat,
        }
    }
}

/// The messages of one schema file, in the order they are defined.
#[derive(Debug, PartialEq)]
pub struct SmsgFile {
    pub messages: Vec<MessageDef>,
}

pub open spec fn messages_view(messages: Seq<MessageDef>) -> Seq<MessageView> {
    messages.map_values(|m: MessageDef| m@)
}

impl View for SmsgFile {
    type V = Seq<MessageView>;

    open spec fn view(&self) -> Seq<MessageView> {
        messages_view(self.messages@)
    }
}

} // verus!
