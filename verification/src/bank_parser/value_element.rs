//! A typed datum attached to a key: one markup element with its
//! attributes.

use vstd::prelude::*;

verus! {

use crate::bank_parser::attribute::Attribute;
use crate::bank_parser::attribute::AttrV;
use crate::bank_parser::attribute::attrs_view;
use crate::canon::SortKeyed;
use crate::canon::Sortable;

/// What a value element contributes to the canonical payload.
#[verifier::ext_equal]
pub ghost struct ElemV {
    pub tag: Seq<char>,
    pub attrs: Seq<AttrV>,
}

impl SortKeyed for ElemV {
    open spec fn skey(&self) -> Seq<char> {
        self.tag
    }
}

/// One typed datum of a key.
#[derive(Debug, Clone)]
pub struct ValueElement {
    pub tag_name: String,
    pub attributes: Vec<Attribute>,
}

impl View for ValueElement {
    type V = ElemV;

    open spec fn view(&self) -> ElemV {
        ElemV { tag: self.tag_name@, attrs: attrs_view(self.attributes@) }
    }
}

/// The views of a collection of value elements.
pub open spec fn elems_view(s: Seq<ValueElement>) -> Seq<ElemV> {
    s.map_values(|v: ValueElement| v@)
}

impl SortKeyed for ValueElement {
    open spec fn skey(&self) -> Seq<char> {
        self.tag_name@
    }
}

impl Sortable for ValueElement {
    fn key_str(&self) -> (r: &str)
        ensures
            r@ == self.skey(),
    {
        self.tag_name.as_str()
    }
}

} // verus!
