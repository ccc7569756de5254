//! The bank document: its typed model, the canonical payload, the SHA-1
//! fingerprint, and signature comparison.
//!
//! The canonical payload flattens the model in a fixed order: the identity
//! triple, then every section (sorted by name), inside it every key (sorted
//! by name), inside it every value element (sorted by tag name), inside it
//! every attribute (sorted by canonical name) as its name followed — except
//! for text-kind attributes — by its value.  The fingerprint is the SHA-1
//! digest of that payload's UTF-8 bytes, as uppercase hexadecimal.

use vstd::prelude::*;

pub mod attribute;
pub mod digest;
pub mod events;
pub mod fixed;
pub mod flag;
pub mod key;
pub mod machine;
pub mod rewrite;
pub mod section;
pub mod value_element;

verus! {

use vstd::string::StrSliceExecFns;
use vstd::string::StringExecFns;
use crate::bank_parser::attribute::Attribute;
use crate::bank_parser::rewrite::replaced_text;
use crate::bank_parser::attribute::AttrV;
use crate::bank_parser::digest::hex_upper;
use crate::bank_parser::digest::hex_upper_of;
use crate::bank_parser::digest::sha1_of;
use crate::bank_parser::digest::sha1_utf8;
use crate::bank_parser::key::KeyV;
use crate::bank_parser::section::Section;
use crate::bank_parser::section::SectionV;
use crate::bank_parser::section::sections_view;
use crate::bank_parser::value_element::ValueElement;
use crate::bank_parser::value_element::ElemV;
use crate::bank_parser::events::markup_events_of;
use crate::bank_parser::events::read_markup_events;
use crate::bank_parser::machine::run_events;
use crate::bank_path::BankPath;
use crate::bank_path::BankPathV;
use crate::AppError;
use crate::AppResult;
use crate::canon::SortKeyed;
use crate::canon::sort_by_skey;
use crate::canon::sorted_indices;
use crate::canon::lemma_sort_related;

/// A fatal structural fault in the document.
#[derive(Debug, Clone, PartialEq, Eq, Structural)]
pub enum BankParserError {
    SectionTagMissingName,
    KeyTagMissingName,
}

impl BankParserError {
    /// A short description of the fault.
    pub fn message(&self) -> (r: &'static str)
        ensures
            r@ == self.spec_message(),
    {
        match self {
            BankParserError::SectionTagMissingName => "Section tag missing 'name' attribute",
            BankParserError::KeyTagMissingName => "Key tag missing 'name' attribute",
        }
    }

    pub open spec fn spec_message(&self) -> Seq<char> {
        match self {
            BankParserError::SectionTagMissingName => "Section tag missing 'name' attribute"@,
            BankParserError::KeyTagMissingName => "Key tag missing 'name' attribute"@,
        }
    }
}

/// What one attribute contributes to the payload: its name, then — unless
/// it is text-kind — its value.
pub open spec fn attr_entry(a: AttrV) -> Seq<char> {
    if a.text {
        a.name
    } else {
        a.name + a.value
    }
}

/// The entries of a run of attributes, concatenated.
pub open spec fn attrs_payload(s: Seq<AttrV>) -> Seq<char>
    decreases s.len(),
{
    if s.len() == 0 {
        Seq::empty()
    } else {
        attrs_payload(s.drop_last()) + attr_entry(s.last())
    }
}

/// What a value element contributes: its tag name, then its attributes in
/// canonical order.
pub open spec fn elem_payload(e: ElemV) -> Seq<char> {
    e.tag + attrs_payload(sort_by_skey(e.attrs))
}

pub open spec fn elems_payload(s: Seq<ElemV>) -> Seq<char>
    decreases s.len(),
{
    if s.len() == 0 {
        Seq::empty()
    } else {
        elems_payload(s.drop_last()) + elem_payload(s.last())
    }
}

/// What a key contributes: its name, then its value elements in canonical
/// order.
pub open spec fn key_payload(k: KeyV) -> Seq<char> {
    k.name + elems_payload(sort_by_skey(k.values))
}

pub open spec fn keys_payload(s: Seq<KeyV>) -> Seq<char>
    decreases s.len(),
{
    if s.len() == 0 {
        Seq::empty()
    } else {
        keys_payload(s.drop_last()) + key_payload(s.last())
    }
}

/// What a section contributes: its name, then its keys in canonical order.
pub open spec fn section_payload(sec: SectionV) -> Seq<char> {
    sec.name + keys_payload(sort_by_skey(sec.keys))
}

pub open spec fn sections_payload(s: Seq<SectionV>) -> Seq<char>
    decreases s.len(),
{
    if s.len() == 0 {
        Seq::empty()
    } else {
        sections_payload(s.drop_last()) + section_payload(s.last())
    }
}

/// The canonical payload of a bank: the identity triple, then the sections
/// in canonical order.
pub open spec fn bank_payload(
    author: Seq<char>,
    player: Seq<char>,
    bank: Seq<char>,
    sections: Seq<SectionV>,
) -> Seq<char> {
    author + player + bank + sections_payload(sort_by_skey(sections))
}

/// The fingerprint of a bank: SHA-1 of the canonical payload, uppercase
/// hexadecimal.
pub open spec fn bank_fingerprint(
    author: Seq<char>,
    player: Seq<char>,
    bank: Seq<char>,
    sections: Seq<SectionV>,
) -> Seq<char> {
    hex_upper_of(sha1_of(bank_payload(author, player, bank, sections)))
}

/// The view of a parsed bank.
pub ghost struct BankParserV {
    pub bank_path: BankPathV,
    pub sections: Seq<SectionV>,
    pub current_signature: Option<Seq<char>>,
    pub signature: Seq<char>,
}

/// A parsed bank document: its identity, its sections, the signature the
/// document declared (if any), and the fingerprint computed over it.
#[derive(Debug, Clone)]
pub struct BankParser {
    pub bank_path: BankPath,
    pub sections: Vec<Section>,
    pub current_signature: Option<String>,
    pub signature: String,
}

impl View for BankParser {
    type V = BankParserV;

    open spec fn view(&self) -> BankParserV {
        BankParserV {
            bank_path: self.bank_path@,
            sections: sections_view(self.sections@),
            current_signature: match self.current_signature {
                Some(s) => Some(s@),
                None => None,
            },
            signature: self.signature@,
        }
    }
}

/// The fingerprint a parsed bank's identity and sections determine.
pub open spec fn spec_signature(b: BankParserV) -> Seq<char> {
    bank_fingerprint(
        b.bank_path.author_handle,
        b.bank_path.player_handle,
        b.bank_path.bank_name,
        b.sections,
    )
}

/// Appends one attribute's payload entry.
fn append_attr_entry(out: &mut String, a: &Attribute)
    ensures
        final(out)@ == old(out)@ + attr_entry(a@),
{
    let name = a.name();
    out.append(name.as_str());
    if !a.is_text() {
        let value = a.value();
        out.append(value.as_str());
    }
}

/// Appends one value element's payload: its tag, then its attributes in
/// canonical order.
#[verifier::loop_isolation(false)]
fn append_elem_payload(out: &mut String, e: &ValueElement)
    ensures
        final(out)@ == old(out)@ + elem_payload(e@),
{
    out.append(e.tag_name.as_str());
    let idx = sorted_indices(&e.attributes);
    let ghost sorted = sort_by_skey(e@.attrs);
    proof {
        assert(forall|k: int|
            0 <= k < e.attributes@.len() ==> (#[trigger] e.attributes@[k]).skey()
                == e@.attrs[k].skey() && e.attributes@[k]@ == e@.attrs[k]);
        lemma_sort_related(e.attributes@, e@.attrs, |a: Attribute, b: AttrV| a@ == b);
    }
    let mut i: usize = 0;
    while i < idx.len()
        invariant
            i <= idx@.len(),
            out@ == old(out)@ + e.tag_name@ + attrs_payload(sorted.take(i as int)),
        decreases idx@.len() - i,
    {
        let j = idx[i];
        proof {
            assert(Seq::new(idx@.len(), |k: int| e.attributes@[idx@[k] as int])[i as int]
                == e.attributes@[j as int]);
            assert(e.attributes@[j as int]@ == sorted[i as int]);
            assert(sorted.take(i + 1).drop_last() =~= sorted.take(i as int));
            assert(sorted.take(i + 1).last() == sorted[i as int]);
        }
        append_attr_entry(out, &e.attributes[j]);
        i = i + 1;
    }
    proof {
        assert(sorted.take(idx@.len() as int) =~= sorted);
    }
}

/// Appends one key's payload: its name, then its value elements in
/// canonical order.
#[verifier::loop_isolation(false)]
fn append_key_payload(out: &mut String, k: &crate::bank_parser::key::Key)
    ensures
        final(out)@ == old(out)@ + key_payload(k@),
{
    out.append(k.name.as_str());
    let idx = sorted_indices(&k.values);
    let ghost sorted = sort_by_skey(k@.values);
    proof {
        assert(forall|m: int|
            0 <= m < k.values@.len() ==> (#[trigger] k.values@[m]).skey() == k@.values[m].skey()
                && k.values@[m]@ == k@.values[m]);
        lemma_sort_related(k.values@, k@.values, |a: ValueElement, b: ElemV| a@ == b);
    }
    let mut i: usize = 0;
    while i < idx.len()
        invariant
            i <= idx@.len(),
            out@ == old(out)@ + k.name@ + elems_payload(sorted.take(i as int)),
        decreases idx@.len() - i,
    {
        let j = idx[i];
        proof {
            assert(Seq::new(idx@.len(), |m: int| k.values@[idx@[m] as int])[i as int]
                == k.values@[j as int]);
            assert(k.values@[j as int]@ == sorted[i as int]);
            assert(sorted.take(i + 1).drop_last() =~= sorted.take(i as int));
            assert(sorted.take(i + 1).last() == sorted[i as int]);
        }
        append_elem_payload(out, &k.values[j]);
        i = i + 1;
    }
    proof {
        assert(sorted.take(idx@.len() as int) =~= sorted);
    }
}

/// Appends one section's payload: its name, then its keys in canonical
/// order.
#[verifier::loop_isolation(false)]
fn append_section_payload(out: &mut String, sec: &Section)
    ensures
        final(out)@ == old(out)@ + section_payload(sec@),
{
    out.append(sec.name.as_str());
    let idx = sorted_indices(&sec.keys);
    let ghost sorted = sort_by_skey(sec@.keys);
    proof {
        assert(forall|m: int|
            0 <= m < sec.keys@.len() ==> (#[trigger] sec.keys@[m]).skey() == sec@.keys[m].skey()
                && sec.keys@[m]@ == sec@.keys[m]);
        lemma_sort_related(sec.keys@, sec@.keys, |a: crate::bank_parser::key::Key, b: KeyV| a@ == b);
    }
    let mut i: usize = 0;
    while i < idx.len()
        invariant
            i <= idx@.len(),
            out@ == old(out)@ + sec.name@ + keys_payload(sorted.take(i as int)),
        decreases idx@.len() - i,
    {
        let j = idx[i];
        proof {
            assert(Seq::new(idx@.len(), |m: int| sec.keys@[idx@[m] as int])[i as int]
                == sec.keys@[j as int]);
            assert(sec.keys@[j as int]@ == sorted[i as int]);
            assert(sorted.take(i + 1).drop_last() =~= sorted.take(i as int));
            assert(sorted.take(i + 1).last() == sorted[i as int]);
        }
        append_key_payload(out, &sec.keys[j]);
        i = i + 1;
    }
    proof {
        assert(sorted.take(idx@.len() as int) =~= sorted);
    }
}

impl BankParser {
    /// Parses a bank document and computes its fingerprint.
    ///
    /// The text is tokenized, the state machine builds the section model
    /// and picks up the declared signature, and the fingerprint is
    /// computed over the given identity and the model.
    pub fn new(bank_path: BankPath, content: &str) -> (r: AppResult<BankParser>)
        ensures
            match markup_events_of(content@) {
                None => r matches Err(AppError::XmlReaderError(_)),
                Some(es) => match run_events(es) {
                    Err(pe) => r matches Err(AppError::BankParseError(e)) && e == pe,
                    Ok(doc) => r matches Ok(b) && b.bank_path == bank_path && b@.sections == doc.0
                        && b@.current_signature == doc.1 && b@.signature.len() == 40
                        && b@.signature == bank_fingerprint(
                        bank_path@.author_handle,
                        bank_path@.player_handle,
                        bank_path@.bank_name,
                        doc.0,
                    ),
                },
            },
    {
        let events = match read_markup_events(content) {
            Ok(es) => es,
            Err(e) => {
                return Err(AppError::XmlReaderError(e));
            },
        };
        let built = match crate::bank_parser::machine::build_bank(&events) {
            Ok(x) => x,
            Err(e) => {
                return Err(AppError::BankParseError(e));
            },
        };
        let (sections, declared) = built;
        let mut b = BankParser {
            bank_path,
            sections,
            current_signature: declared,
            signature: String::new(),
        };
        b.compute_signature();
        Ok(b)
    }

    /// Recomputes the fingerprint over the identity and sections and stores
    /// it; nothing else changes.
    #[verifier::loop_isolation(false)]
    pub fn compute_signature(&mut self)
        ensures
            final(self).bank_path == old(self).bank_path,
            final(self).sections == old(self).sections,
            final(self).current_signature == old(self).current_signature,
            final(self).signature@ == spec_signature(old(self)@),
            final(self).signature@.len() == 40,
    {
        let mut payload = String::new();
        payload.append(self.bank_path.author_handle.as_str());
        payload.append(self.bank_path.player_handle.as_str());
        payload.append(self.bank_path.bank_name.as_str());
        let ghost id_part = self.bank_path.author_handle@ + self.bank_path.player_handle@
            + self.bank_path.bank_name@;
        let idx = sorted_indices(&self.sections);
        let ghost sorted = sort_by_skey(self@.sections);
        proof {
            assert(forall|m: int|
                0 <= m < self.sections@.len() ==> (#[trigger] self.sections@[m]).skey()
                    == self@.sections[m].skey() && self.sections@[m]@ == self@.sections[m]);
            lemma_sort_related(self.sections@, self@.sections, |a: Section, b: SectionV| a@ == b);
        }
        let mut i: usize = 0;
        while i < idx.len()
            invariant
                i <= idx@.len(),
                payload@ == id_part + sections_payload(sorted.take(i as int)),
            decreases idx@.len() - i,
        {
            let j = idx[i];
            proof {
                assert(Seq::new(idx@.len(), |m: int| self.sections@[idx@[m] as int])[i as int]
                    == self.sections@[j as int]);
                assert(self.sections@[j as int]@ == sorted[i as int]);
                assert(sorted.take(i + 1).drop_last() =~= sorted.take(i as int));
                assert(sorted.take(i + 1).last() == sorted[i as int]);
            }
            append_section_payload(&mut payload, &self.sections[j]);
            i = i + 1;
        }
        proof {
            assert(sorted.take(idx@.len() as int) =~= sorted);
            assert(payload@ == bank_payload(
                self.bank_path.author_handle@,
                self.bank_path.player_handle@,
                self.bank_path.bank_name@,
                self@.sections,
            ));
        }
        let digest = sha1_utf8(payload.as_str());
        self.signature = hex_upper(digest.as_slice());
    }

    /// Computes the text with the declared signature replaced by the
    /// computed one.
    ///
    /// Fails when the parse saw no declared signature, or when the
    /// `Signature` element cannot be located in the text (nothing is safe
    /// to replace).  Returns `Ok(None)` when the replacement would leave
    /// the text unchanged, and `Ok(Some(updated))` otherwise; the caller
    /// persists the updated text.
    #[verifier::rlimit(80)]
    pub fn replace_signature(&self, content: &str) -> (r: AppResult<Option<String>>)
        ensures
            self.current_signature is None ==> r matches Err(AppError::SignatureNotFound),
            self.current_signature is Some ==> match replaced_text(content@, self@.signature) {
                None => r matches Err(AppError::SignatureNotFound),
                Some(t) => if t == content@ {
                    r matches Ok(o) && o is None
                } else {
                    r matches Ok(o) && o matches Some(u) && u@ == t
                },
            },
    {
        if self.current_signature.is_none() {
            return Err(AppError::SignatureNotFound);
        }
        match crate::bank_parser::rewrite::find_first_value_span(content) {
            None => Err(AppError::SignatureNotFound),
            Some(span) => {
                let (a, b) = span;
                let prefix = content.substring_char(0, a);
                let suffix = content.substring_char(b, content.unicode_len());
                let mut out = String::new();
                out.append(prefix);
                out.append(self.signature.as_str());
                out.append(suffix);
                proof {
                    assert(content@.subrange(0, a as int) =~= content@.take(a as int));
                    assert(content@.subrange(b as int, content@.len() as int) =~= content@.skip(
                        b as int,
                    ));
                    assert(out@ =~= content@.take(a as int) + self.signature@ + content@.skip(
                        b as int,
                    ));
                }
                if crate::strutil::str_eq(out.as_str(), content) {
                    Ok(None)
                } else {
                    Ok(Some(out))
                }
            },
        }
    }

    /// Whether the declared signature exists and equals the computed one.
    pub fn compare_signature(&self) -> (r: bool)
        ensures
            r == match self@.current_signature {
                Some(s) => s == self@.signature,
                None => false,
            },
    {
        match &self.current_signature {
            Some(cs) => crate::strutil::str_eq(cs.as_str(), self.signature.as_str()),
            None => false,
        }
    }
}

} // verus!
