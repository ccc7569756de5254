//! Typed attributes of a value element.
//!
//! An attribute is built from a raw `(name, value)` pair on a markup
//! element.  The names `int`, `fixed`, `flag`, `text` and `string` select
//! built-in kinds with their own value formatting; any other name is kept
//! as a custom attribute so the fingerprint stays sensitive to it.

use vstd::prelude::*;

verus! {

use vstd::string::StringExecFns;
use crate::bank_parser::fixed::Fixed;
use crate::bank_parser::fixed::fixed_render;
use crate::bank_parser::flag::Flag;
use crate::bank_parser::flag::flag_str;
use crate::canon::SortKeyed;
use crate::canon::Sortable;
use crate::strutil::int_str;
use crate::strutil::parse_i32;
use crate::strutil::str_eq;

/// What an attribute contributes to the canonical payload: its name, its
/// rendered value, and whether it is text-kind (whose value the payload
/// excludes).
#[verifier::ext_equal]
pub ghost struct AttrV {
    pub name: Seq<char>,
    pub value: Seq<char>,
    pub text: bool,
}

impl SortKeyed for AttrV {
    open spec fn skey(&self) -> Seq<char> {
        self.name
    }
}

/// The views of a collection of attributes.
pub open spec fn attrs_view(s: Seq<Attribute>) -> Seq<AttrV> {
    s.map_values(|a: Attribute| a@)
}

/// A typed attribute on a value element.
#[derive(Debug, Clone)]
pub enum Attribute {
    String(String),
    Int(i32),
    Fixed(Fixed),
    Flag(Flag),
    Text(String),
    Custom(String, String),
}

impl View for Attribute {
    type V = AttrV;

    open spec fn view(&self) -> AttrV {
        match self {
            Attribute::String(v) => AttrV { name: "string"@, value: v@, text: false },
            Attribute::Int(v) => AttrV { name: "int"@, value: int_str(*v as int), text: false },
            Attribute::Fixed(v) => AttrV { name: "fixed"@, value: v.0@, text: false },
            Attribute::Flag(v) => AttrV { name: "flag"@, value: flag_str(v.0), text: false },
            Attribute::Text(v) => AttrV { name: "text"@, value: v@, text: true },
            Attribute::Custom(n, v) => AttrV { name: n@, value: v@, text: false },
        }
    }
}

impl SortKeyed for Attribute {
    open spec fn skey(&self) -> Seq<char> {
        self@.name
    }
}

impl Sortable for Attribute {
    fn key_str(&self) -> (r: &str)
        ensures
            r@ == self.skey(),
    {
        match self {
            Attribute::String(_) => "string",
            Attribute::Int(_) => "int",
            Attribute::Fixed(_) => "fixed",
            Attribute::Flag(_) => "flag",
            Attribute::Text(_) => "text",
            Attribute::Custom(n, _) => n.as_str(),
        }
    }
}

/// The value parsed as a 32-bit integer, with `0` substituted on failure.
pub open spec fn int_or_zero(value: Seq<char>) -> int {
    match parse_i32(value) {
        Some(v) => v,
        None => 0,
    }
}

/// The attribute a raw `(name, value)` pair denotes.
pub open spec fn attr_of_raw(name: Seq<char>, value: Seq<char>) -> AttrV {
    if name == "int"@ {
        AttrV { name: "int"@, value: int_str(int_or_zero(value)), text: false }
    } else if name == "fixed"@ {
        AttrV { name: "fixed"@, value: fixed_render(value), text: false }
    } else if name == "flag"@ {
        AttrV { name: "flag"@, value: flag_str(value == "1"@), text: false }
    } else if name == "text"@ {
        AttrV { name: "text"@, value, text: true }
    } else if name == "string"@ {
        AttrV { name: "string"@, value, text: false }
    } else {
        AttrV { name, value, text: false }
    }
}

impl Attribute {
    /// Whether the attribute is text-kind, whose value the canonical
    /// payload excludes.
    pub fn is_text(&self) -> (r: bool)
        ensures
            r == self@.text,
    {
        match self {
            Attribute::Text(_) => true,
            _ => false,
        }
    }

    /// Builds the attribute a raw markup `(name, value)` pair denotes.
    pub fn from_xml_attribute(name: &str, value: &str) -> (r: Attribute)
        ensures
            r@ == attr_of_raw(name@, value@),
    {
        if str_eq(name, "int") {
            let v = match crate::strutil::parse_i32_str(value) {
                Some(v) => v,
                None => 0,
            };
            Attribute::Int(v)
        } else if str_eq(name, "fixed") {
            Attribute::Fixed(Fixed::from_value_text(value))
        } else if str_eq(name, "flag") {
            Attribute::Flag(Flag::from_value_text(value))
        } else if str_eq(name, "text") {
            Attribute::Text(value.to_owned())
        } else if str_eq(name, "string") {
            Attribute::String(value.to_owned())
        } else {
            Attribute::Custom(name.to_owned(), value.to_owned())
        }
    }

    /// The formatted value string.
    pub fn value(&self) -> (r: String)
        ensures
            r@ == self@.value,
    {
        match self {
            Attribute::Int(v) => crate::strutil::i32_string(*v),
            Attribute::Fixed(v) => v.value_string(),
            Attribute::Flag(v) => v.value_string(),
            Attribute::Text(v) => v.clone(),
            Attribute::String(v) => v.clone(),
            Attribute::Custom(_, value) => value.clone(),
        }
    }

    /// The canonical name: the kind's keyword, or the literal name of a
    /// custom attribute.
    pub fn name(&self) -> (r: String)
        ensures
            r@ == self@.name,
    {
        match self {
            Attribute::Int(_) => "int".to_owned(),
            Attribute::Fixed(_) => "fixed".to_owned(),
            Attribute::Flag(_) => "flag".to_owned(),
            Attribute::Text(_) => "text".to_owned(),
            Attribute::String(_) => "string".to_owned(),
            Attribute::Custom(name, _) => name.clone(),
        }
    }
}

} // verus!
