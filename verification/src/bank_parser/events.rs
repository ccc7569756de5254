//! The markup event stream the parser consumes.
//!
//! Tokenizing the markup text is the one step delegated to an outside
//! crate; everything past it works on the plain events this module
//! produces.

use vstd::prelude::*;
use xml::reader::XmlEvent;

verus! {

/// An element boundary in the markup text: an opening tag with its
/// attribute (name, value) pairs, or a closing tag.  Other markup events
/// (text content, comments, processing instructions) play no role in the
/// document model and are not represented.
pub enum RawEvent {
    Start(String, Vec<(String, String)>),
    End(String),
}

/// The views of raw attribute (name, value) pairs.
pub open spec fn pairs_rep(s: Seq<(String, String)>) -> Seq<(Seq<char>, Seq<char>)> {
    s.map_values(|p: (String, String)| (p.0@, p.1@))
}

/// The plain shape of one event: whether it opens an element, the
/// element's local name, and its attribute (name, value) pairs.
pub open spec fn event_rep(e: RawEvent) -> (bool, Seq<char>, Seq<(Seq<char>, Seq<char>)>) {
    match e {
        RawEvent::Start(n, attrs) => (true, n@, pairs_rep(attrs@)),
        RawEvent::End(n) => (false, n@, Seq::empty()),
    }
}

/// The plain shapes of a stream of events.
pub open spec fn events_rep(es: Seq<RawEvent>) -> Seq<(bool, Seq<char>, Seq<(Seq<char>, Seq<char>)>)> {
    es.map_values(|e: RawEvent| event_rep(e))
}

/// The element events that tokenizing a text yields, or `None` when the
/// markup is malformed.  Tokenization is a function of the text alone.
pub uninterp spec fn markup_events_of(text: Seq<char>) -> Option<
    Seq<(bool, Seq<char>, Seq<(Seq<char>, Seq<char>)>)>,
>;

#[verifier::external_type_specification]
#[verifier::external_body]
pub struct ExXmlError(xml::reader::Error);

/// Relies on `xml::reader::EventReader`: a deterministic tokenizer of the
/// text, yielding the element boundaries with their local names and
/// attribute (name, value) pairs, or an error on malformed markup.
#[verifier::external_body]
pub(crate) fn read_markup_events(text: &str) -> (r: Result<Vec<RawEvent>, xml::reader::Error>)
    ensures
        match r {
            Ok(es) => markup_events_of(text@) == Some(events_rep(es@)),
            Err(_) => markup_events_of(text@) is None,
        },
{
    let mut out = Vec::new();
    for ev in xml::reader::EventReader::new(text.as_bytes()) {
        match ev {
            Ok(XmlEvent::StartElement { name, attributes, .. }) => out.push(RawEvent::Start(
                name.local_name,
                attributes.into_iter().map(|a| (a.name.local_name, a.value)).collect(),
            )),
            Ok(XmlEvent::EndElement { name }) => out.push(RawEvent::End(name.local_name)),
            Ok(_) => {},
            Err(e) => return Err(e),
        }
    }
    Ok(out)
}

} // verus!
