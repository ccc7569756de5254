//! Boolean attribute values: parsed from the literal `"1"`, rendered as
//! `"1"` or `"0"`.

use vstd::prelude::*;

verus! {

/// A boolean attribute value.
#[derive(Debug, Clone, Copy, PartialEq, Eq, Structural)]
pub struct Flag(pub bool);

/// The canonical rendering of a flag value.
pub open spec fn flag_str(b: bool) -> Seq<char> {
    if b {
        "1"@
    } else {
        "0"@
    }
}

impl core::str::FromStr for Flag {
    type Err = String;

    fn from_str(s: &str) -> Result<Flag, String> {
        if crate::strutil::str_eq(s, "1") {
            Ok(Flag(true))
        } else if crate::strutil::str_eq(s, "0") {
            Ok(Flag(false))
        } else {
            Err("Invalid flag value".to_owned())
        }
    }
}

impl Flag {
    pub fn new(value: bool) -> (r: Flag)
        ensures
            r == Flag(value),
    {
        Flag(value)
    }

    /// Parses a flag as the document format reads it: the literal `"1"` is
    /// true, anything else is false.
    pub fn from_value_text(s: &str) -> (r: Flag)
        ensures
            r == Flag(s@ == "1"@),
    {
        Flag(crate::strutil::str_eq(s, "1"))
    }

    /// Renders the flag as `"1"` or `"0"`.
    pub fn value_string(&self) -> (r: String)
        ensures
            r@ == flag_str(self.0),
    {
        if self.0 {
            let r = "1".to_owned();
            r
        } else {
            let r = "0".to_owned();
            r
        }
    }
}

} // verus!
