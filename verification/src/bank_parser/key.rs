//! A named key holding an ordered collection of value elements.

use vstd::prelude::*;

verus! {

use crate::bank_parser::value_element::ValueElement;
use crate::bank_parser::value_element::ElemV;
use crate::bank_parser::value_element::elems_view;
use crate::canon::SortKeyed;
use crate::canon::Sortable;

/// What a key contributes to the canonical payload.
#[verifier::ext_equal]
pub ghost struct KeyV {
    pub name: Seq<char>,
    pub values: Seq<ElemV>,
}

impl SortKeyed for KeyV {
    open spec fn skey(&self) -> Seq<char> {
        self.name
    }
}

/// A named key of a section.
#[derive(Debug, Clone)]
pub struct Key {
    pub name: String,
    pub values: Vec<ValueElement>,
}

impl View for Key {
    type V = KeyV;

    open spec fn view(&self) -> KeyV {
        KeyV { name: self.name@, values: elems_view(self.values@) }
    }
}

/// The views of a collection of keys.
pub open spec fn keys_view(s: Seq<Key>) -> Seq<KeyV> {
    s.map_values(|k: Key| k@)
}

impl SortKeyed for Key {
    open spec fn skey(&self) -> Seq<char> {
        self.name@
    }
}

impl Sortable for Key {
    fn key_str(&self) -> (r: &str)
        ensures
            r@ == self.skey(),
    {
        self.name.as_str()
    }
}

} // verus!
