//! A named section holding an ordered collection of keys.

use vstd::prelude::*;

verus! {

use crate::bank_parser::key::Key;
use crate::bank_parser::key::KeyV;
use crate::bank_parser::key::keys_view;
use crate::canon::SortKeyed;
use crate::canon::Sortable;

/// What a section contributes to the canonical payload.
#[verifier::ext_equal]
pub ghost struct SectionV {
    pub name: Seq<char>,
    pub keys: Seq<KeyV>,
}

impl SortKeyed for SectionV {
    open spec fn skey(&self) -> Seq<char> {
        self.name
    }
}

/// A named section of a bank document.
#[derive(Debug, Clone)]
pub struct Section {
    pub name: String,
    pub keys: Vec<Key>,
}

impl View for Section {
    type V = SectionV;

    open spec fn view(&self) -> SectionV {
        SectionV { name: self.name@, keys: keys_view(self.keys@) }
    }
}

/// The views of a collection of sections.
pub open spec fn sections_view(s: Seq<Section>) -> Seq<SectionV> {
    s.map_values(|sec: Section| sec@)
}

impl SortKeyed for Section {
    open spec fn skey(&self) -> Seq<char> {
        self.name@
    }
}

impl Sortable for Section {
    fn key_str(&self) -> (r: &str)
        ensures
            r@ == self.skey(),
    {
        self.name.as_str()
    }
}

} // verus!
