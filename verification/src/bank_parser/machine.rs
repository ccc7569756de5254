//! The parsing state machine.
//!
//! The machine consumes element events and builds the section model.  A
//! `Section` opening tag closes whatever is open and starts a fresh
//! section (its `name` attribute is mandatory); a `Key` opening tag inside
//! a section starts a fresh key (`name` mandatory; outside a section it is
//! ignored); a `Signature` tag records its `value` attribute; any other
//! opening tag inside a key becomes a value element.  Closing a key drops
//! it when it holds no value elements; closing a section drops it when it
//! holds no keys; the end of the stream closes whatever is still open the
//! same way.

use vstd::prelude::*;

verus! {

use crate::bank_parser::BankParserError;
use crate::bank_parser::attribute::Attribute;
use crate::bank_parser::attribute::AttrV;
use crate::bank_parser::attribute::attr_of_raw;
use crate::bank_parser::attribute::attrs_view;
use crate::bank_parser::events::RawEvent;
use crate::bank_parser::events::events_rep;
use crate::bank_parser::events::event_rep;
use crate::bank_parser::events::pairs_rep;
use crate::bank_parser::key::Key;
use crate::bank_parser::key::KeyV;
use crate::bank_parser::section::Section;
use crate::bank_parser::section::SectionV;
use crate::bank_parser::section::sections_view;
use crate::bank_parser::value_element::ValueElement;
use crate::bank_parser::value_element::ElemV;
use crate::strutil::str_eq;

pub type EventRep = (bool, Seq<char>, Seq<(Seq<char>, Seq<char>)>);

/// The view of an optional value.
pub open spec fn opt_view<T: View>(o: Option<T>) -> Option<T::V> {
    match o {
        Some(x) => Some(x@),
        None => None,
    }
}

/// The machine's state: the finished sections, the open section and key,
/// and the declared signature seen so far.
#[verifier::ext_equal]
pub ghost struct MachineV {
    pub sections: Seq<SectionV>,
    pub cur_section: Option<SectionV>,
    pub cur_key: Option<KeyV>,
    pub declared: Option<Seq<char>>,
}

pub open spec fn init_state() -> MachineV {
    MachineV { sections: Seq::empty(), cur_section: None, cur_key: None, declared: None }
}

/// The first value of the attribute with the given name, if any.
pub open spec fn find_attr(attrs: Seq<(Seq<char>, Seq<char>)>, name: Seq<char>) -> Option<
    Seq<char>,
>
    decreases attrs.len(),
{
    if attrs.len() == 0 {
        None
    } else if attrs[0].0 == name {
        Some(attrs[0].1)
    } else {
        find_attr(attrs.drop_first(), name)
    }
}

/// Closing the open key and section, on the current-element components
/// alone: a key with no value elements is dropped, any other joins the
/// open section.
pub open spec fn close_key_parts(cs: Option<SectionV>, ck: Option<KeyV>) -> (
    Option<SectionV>,
    Option<KeyV>,
) {
    match ck {
        None => (cs, None),
        Some(k) => match cs {
            None => (cs, None),
            Some(sec) => (
                Some(
                    SectionV {
                        name: sec.name,
                        keys: if k.values.len() == 0 {
                            sec.keys
                        } else {
                            sec.keys.push(k)
                        },
                    },
                ),
                None,
            ),
        },
    }
}

/// Closes the open key: see `close_key_parts`.
pub open spec fn close_key(st: MachineV) -> MachineV {
    let (cs, ck) = close_key_parts(st.cur_section, st.cur_key);
    MachineV { cur_section: cs, cur_key: ck, ..st }
}

/// Closes the open section, closing its open key first: a section with no
/// keys is dropped, any other joins the document.
pub open spec fn close_section(st: MachineV) -> MachineV {
    let st1 = close_key(st);
    match st1.cur_section {
        None => st1,
        Some(sec) => MachineV {
            cur_section: None,
            sections: if sec.keys.len() == 0 {
                st1.sections
            } else {
                st1.sections.push(sec)
            },
            ..st1
        },
    }
}

/// The typed attributes a raw element's pairs denote.
pub open spec fn attrs_of_raw(attrs: Seq<(Seq<char>, Seq<char>)>) -> Seq<AttrV> {
    attrs.map_values(|p: (Seq<char>, Seq<char>)| attr_of_raw(p.0, p.1))
}

/// One transition of the machine.
pub open spec fn step(st: MachineV, ev: EventRep) -> Result<MachineV, BankParserError> {
    let (start, name, attrs) = ev;
    if start {
        if name == "Section"@ {
            let st1 = close_section(st);
            match find_attr(attrs, "name"@) {
                None => Err(BankParserError::SectionTagMissingName),
                Some(n) => Ok(
                    MachineV {
                        cur_section: Some(SectionV { name: n, keys: Seq::empty() }),
                        ..st1
                    },
                ),
            }
        } else if name == "Key"@ {
            let st1 = close_key(st);
            if st1.cur_section is Some {
                match find_attr(attrs, "name"@) {
                    None => Err(BankParserError::KeyTagMissingName),
                    Some(n) => Ok(
                        MachineV { cur_key: Some(KeyV { name: n, values: Seq::empty() }), ..st1 },
                    ),
                }
            } else {
                Ok(st1)
            }
        } else if name == "Signature"@ {
            // The value is captured only when present; a `Signature` tag
            // without one leaves the slot as it was.
            Ok(
                MachineV {
                    declared: match find_attr(attrs, "value"@) {
                        Some(v) => Some(v),
                        None => st.declared,
                    },
                    ..st
                },
            )
        } else {
            match st.cur_key {
                Some(k) => Ok(
                    MachineV {
                        cur_key: Some(
                            KeyV {
                                name: k.name,
                                values: k.values.push(
                                    ElemV { tag: name, attrs: attrs_of_raw(attrs) },
                                ),
                            },
                        ),
                        ..st
                    },
                ),
                None => Ok(st),
            }
        }
    } else {
        if name == "Key"@ {
            Ok(close_key(st))
        } else if name == "Section"@ {
            Ok(close_section(st))
        } else {
            Ok(st)
        }
    }
}

/// The machine's run over a stream of events, from a given state.
pub open spec fn run_from(st: MachineV, events: Seq<EventRep>) -> Result<MachineV, BankParserError>
    decreases events.len(),
{
    if events.len() == 0 {
        Ok(st)
    } else {
        match run_from(st, events.drop_last()) {
            Err(e) => Err(e),
            Ok(st2) => step(st2, events.last()),
        }
    }
}

/// The machine's run over a stream of events.
pub open spec fn run_steps(events: Seq<EventRep>) -> Result<MachineV, BankParserError>
    decreases events.len(),
{
    if events.len() == 0 {
        Ok(init_state())
    } else {
        match run_steps(events.drop_last()) {
            Err(e) => Err(e),
            Ok(st) => step(st, events.last()),
        }
    }
}

/// The run is the run-from-the-initial-state.
pub proof fn lemma_run_steps_is_run_from(events: Seq<EventRep>)
    ensures
        run_steps(events) == run_from(init_state(), events),
    decreases events.len(),
{
    if events.len() > 0 {
        lemma_run_steps_is_run_from(events.drop_last());
    }
}

/// Runs compose over concatenation.
pub proof fn lemma_run_from_append(st: MachineV, a: Seq<EventRep>, b: Seq<EventRep>)
    ensures
        run_from(st, a + b) == (match run_from(st, a) {
            Ok(m) => run_from(m, b),
            Err(e) => Err(e),
        }),
    decreases b.len(),
{
    if b.len() == 0 {
        assert(a + b =~= a);
    } else {
        lemma_run_from_append(st, a, b.drop_last());
        assert((a + b).drop_last() =~= a + b.drop_last());
        assert((a + b).last() == b.last());
    }
}

/// The document a stream of events denotes: the machine's run, with the
/// defensive final close of whatever is still open.
pub open spec fn run_events(events: Seq<EventRep>) -> Result<
    (Seq<SectionV>, Option<Seq<char>>),
    BankParserError,
> {
    match run_steps(events) {
        Err(e) => Err(e),
        Ok(st) => {
            let fin = close_section(st);
            Ok((fin.sections, fin.declared))
        },
    }
}

/// Looks up the first attribute with the given name, as `find_attr`
/// describes.
fn find_attr_exec(attrs: &Vec<(String, String)>, name: &str) -> (r: Option<String>)
    ensures
        match find_attr(pairs_rep(attrs@), name@) {
            None => r is None,
            Some(v) => r is Some && r->0@ == v,
        },
{
    let mut i: usize = 0;
    while i < attrs.len()
        invariant
            i <= attrs@.len(),
            forall|k: int| 0 <= k < i ==> (#[trigger] pairs_rep(attrs@)[k]).0 != name@,
        decreases attrs@.len() - i,
    {
        if str_eq(attrs[i].0.as_str(), name) {
            proof {
                lemma_find_attr_skip(pairs_rep(attrs@), name@, i as int);
                assert(pairs_rep(attrs@).skip(i as int)[0] == pairs_rep(attrs@)[i as int]);
            }
            return Some(attrs[i].1.clone());
        }
        i = i + 1;
    }
    proof {
        lemma_find_attr_skip(pairs_rep(attrs@), name@, attrs@.len() as int);
    }
    None
}

/// Once the machine has failed, the rest of the stream cannot revive it.
proof fn lemma_run_steps_err(events: Seq<EventRep>, i: int)
    requires
        0 <= i <= events.len(),
        run_steps(events.take(i)) is Err,
    ensures
        run_steps(events) == run_steps(events.take(i)),
    decreases events.len() - i,
{
    if i < events.len() {
        assert(events.take(i + 1).drop_last() =~= events.take(i));
        lemma_run_steps_err(events, i + 1);
    } else {
        assert(events.take(i) =~= events);
    }
}

/// A prefix without the name does not decide the lookup.
proof fn lemma_find_attr_skip(attrs: Seq<(Seq<char>, Seq<char>)>, name: Seq<char>, i: int)
    requires
        0 <= i <= attrs.len(),
        forall|k: int| 0 <= k < i ==> (#[trigger] attrs[k]).0 != name,
    ensures
        find_attr(attrs, name) == find_attr(attrs.skip(i), name),
    decreases i,
{
    if i > 0 {
        lemma_find_attr_skip(attrs.drop_first(), name, i - 1);
        assert(attrs.drop_first().skip(i - 1) =~= attrs.skip(i));
    } else {
        assert(attrs.skip(0) =~= attrs);
    }
}

/// Closes the open key, as `close_key_parts` describes.
fn close_key_exec(cur_section: &mut Option<Section>, cur_key: &mut Option<Key>)
    ensures
        (opt_view(*final(cur_section)), opt_view(*final(cur_key))) == close_key_parts(
            opt_view(*old(cur_section)),
            opt_view(*old(cur_key)),
        ),
{
    let k_opt = cur_key.take();
    match k_opt {
        None => {},
        Some(k) => {
            if k.values.len() > 0 {
                match cur_section {
                    Some(sec) => {
                        proof {
                            assert(k@.values.len() > 0) by {
                                assert(k@.values.len() == k.values@.len());
                            }
                        }
                        sec.keys.push(k);
                        proof {
                            assert(crate::bank_parser::key::keys_view(sec.keys@)
                                =~= (*old(cur_section))->0@.keys.push((*old(cur_key))->0@));
                        }
                    },
                    None => {},
                }
            } else {
                proof {
                    assert(k@.values.len() == 0) by {
                        assert(k@.values.len() == k.values@.len());
                    }
                }
            }
        },
    }
}

/// Closes the open section, as `close_section` describes.
fn close_section_exec(
    sections: &mut Vec<Section>,
    cur_section: &mut Option<Section>,
    cur_key: &mut Option<Key>,
)
    ensures
        ({
            let st1 = close_section(
                MachineV {
                    sections: sections_view(old(sections)@),
                    cur_section: opt_view(*old(cur_section)),
                    cur_key: opt_view(*old(cur_key)),
                    declared: None,
                },
            );
            sections_view(final(sections)@) == st1.sections && opt_view(*final(cur_section))
                == st1.cur_section && opt_view(*final(cur_key)) == st1.cur_key
        }),
{
    close_key_exec(cur_section, cur_key);
    let s_opt = cur_section.take();
    match s_opt {
        None => {},
        Some(sec) => {
            if sec.keys.len() > 0 {
                sections.push(sec);
                proof {
                    assert(sections_view(sections@) =~= sections_view(old(sections)@).push(
                        sections@.last()@,
                    ));
                }
            }
        },
    }
}

/// Builds the section model and declared signature from an event stream,
/// exactly as `run_events` describes.
#[verifier::loop_isolation(false)]
pub fn build_bank(events: &Vec<RawEvent>) -> (r: Result<
    (Vec<Section>, Option<String>),
    BankParserError,
>)
    ensures
        match r {
            Ok(out) => run_events(events_rep(events@)) == Ok::<
                (Seq<SectionV>, Option<Seq<char>>),
                BankParserError,
            >((sections_view(out.0@), opt_view(out.1))),
            Err(e) => run_events(events_rep(events@)) == Err::<
                (Seq<SectionV>, Option<Seq<char>>),
                BankParserError,
            >(e),
        },
{
    let mut sections: Vec<Section> = Vec::new();
    let mut cur_section: Option<Section> = None;
    let mut cur_key: Option<Key> = None;
    let mut declared: Option<String> = None;
    let ghost reps = events_rep(events@);
    proof {
        assert(reps.take(0) =~= Seq::<EventRep>::empty());
        assert(sections_view(sections@) =~= Seq::<SectionV>::empty());
    }
    let mut i: usize = 0;
    while i < events.len()
        invariant
            i <= events@.len(),
            run_steps(reps.take(i as int)) == Ok::<MachineV, BankParserError>(
                MachineV {
                    sections: sections_view(sections@),
                    cur_section: opt_view(cur_section),
                    cur_key: opt_view(cur_key),
                    declared: match declared {
                        Some(d) => Some(d@),
                        None => None,
                    },
                },
            ),
        decreases events@.len() - i,
    {
        let ghost st = run_steps(reps.take(i as int))->Ok_0;
        proof {
            assert(reps.take(i + 1).drop_last() =~= reps.take(i as int));
            assert(reps.take(i + 1).last() == event_rep(events@[i as int]));
        }
        match &events[i] {
            RawEvent::Start(name, attrs) => {
                proof {
                    assert(reps.take(i + 1).last() == (true, name@, pairs_rep(attrs@)));
                }
                if str_eq(name.as_str(), "Section") {
                    close_section_exec(&mut sections, &mut cur_section, &mut cur_key);
                    match find_attr_exec(attrs, "name") {
                        None => {
                            proof {
                                assert(run_steps(reps.take(i + 1)) == Err::<
                                    MachineV,
                                    BankParserError,
                                >(BankParserError::SectionTagMissingName));
                                lemma_run_steps_err(reps, i + 1);
                            }
                            return Err(BankParserError::SectionTagMissingName);
                        },
                        Some(n) => {
                            cur_section = Some(Section { name: n, keys: Vec::new() });
                            proof {
                                assert(crate::bank_parser::key::keys_view(
                                    cur_section->0.keys@,
                                ) =~= Seq::<KeyV>::empty());
                            }
                        },
                    }
                } else if str_eq(name.as_str(), "Key") {
                    close_key_exec(&mut cur_section, &mut cur_key);
                    if cur_section.is_some() {
                        match find_attr_exec(attrs, "name") {
                            None => {
                                proof {
                                    assert(run_steps(reps.take(i + 1)) == Err::<
                                        MachineV,
                                        BankParserError,
                                    >(BankParserError::KeyTagMissingName));
                                    lemma_run_steps_err(reps, i + 1);
                                }
                                return Err(BankParserError::KeyTagMissingName);
                            },
                            Some(n) => {
                                cur_key = Some(Key { name: n, values: Vec::new() });
                                proof {
                                    assert(crate::bank_parser::value_element::elems_view(
                                        cur_key->0.values@,
                                    ) =~= Seq::<ElemV>::empty());
                                }
                            },
                        }
                    }
                } else if str_eq(name.as_str(), "Signature") {
                    match find_attr_exec(attrs, "value") {
                        Some(v) => {
                            declared = Some(v);
                        },
                        None => {},
                    }
                } else {
                    match &mut cur_key {
                        Some(k) => {
                            let mut vattrs: Vec<Attribute> = Vec::new();
                            proof {
                                assert(attrs_view(vattrs@) =~= attrs_of_raw(
                                    pairs_rep(attrs@).take(0),
                                ));
                            }
                            let mut a: usize = 0;
                            while a < attrs.len()
                                invariant
                                    a <= attrs@.len(),
                                    attrs_view(vattrs@) == attrs_of_raw(
                                        pairs_rep(attrs@).take(a as int),
                                    ),
                                decreases attrs@.len() - a,
                            {
                                let ghost prev = vattrs@;
                                vattrs.push(
                                    Attribute::from_xml_attribute(
                                        attrs[a].0.as_str(),
                                        attrs[a].1.as_str(),
                                    ),
                                );
                                proof {
                                    assert(pairs_rep(attrs@)[a as int] == (
                                        attrs@[a as int].0@,
                                        attrs@[a as int].1@,
                                    ));
                                    assert(vattrs@ == prev.push(vattrs@.last()));
                                    assert(vattrs@.last()@ == attr_of_raw(
                                        pairs_rep(attrs@)[a as int].0,
                                        pairs_rep(attrs@)[a as int].1,
                                    ));
                                    assert forall|m: int| 0 <= m < a + 1 implies attrs_view(
                                        vattrs@,
                                    )[m] == attrs_of_raw(pairs_rep(attrs@).take(a + 1))[m] by {
                                        assert(attrs_of_raw(pairs_rep(attrs@).take(a + 1))[m]
                                            == attr_of_raw(
                                            pairs_rep(attrs@).take(a + 1)[m].0,
                                            pairs_rep(attrs@).take(a + 1)[m].1,
                                        ));
                                        if m < a {
                                            assert(vattrs@[m] == prev[m]);
                                            assert(attrs_view(prev)[m] == prev[m]@);
                                            assert(attrs_of_raw(pairs_rep(attrs@).take(a as int))[m]
                                                == attr_of_raw(
                                                pairs_rep(attrs@).take(a as int)[m].0,
                                                pairs_rep(attrs@).take(a as int)[m].1,
                                            ));
                                        }
                                    }
                                    assert(attrs_view(vattrs@) =~= attrs_of_raw(
                                        pairs_rep(attrs@).take(a + 1),
                                    ));
                                }
                                a = a + 1;
                            }
                            proof {
                                assert(pairs_rep(attrs@).take(attrs@.len() as int) =~= pairs_rep(
                                    attrs@,
                                ));
                            }
                            let elem = ValueElement { tag_name: name.clone(), attributes: vattrs };
                            let ghost kprev = k@;
                            k.values.push(elem);
                            proof {
                                assert(k.values@.last()@ == ElemV {
                                    tag: name@,
                                    attrs: attrs_of_raw(pairs_rep(attrs@)),
                                });
                                assert(crate::bank_parser::value_element::elems_view(k.values@)
                                    =~= kprev.values.push(k.values@.last()@));
                            }
                        },
                        None => {},
                    }
                }
            },
            RawEvent::End(name) => {
                proof {
                    assert(reps.take(i + 1).last() == (
                        false,
                        name@,
                        Seq::<(Seq<char>, Seq<char>)>::empty(),
                    ));
                }
                if str_eq(name.as_str(), "Key") {
                    close_key_exec(&mut cur_section, &mut cur_key);
                } else if str_eq(name.as_str(), "Section") {
                    close_section_exec(&mut sections, &mut cur_section, &mut cur_key);
                }
            },
        }
        i = i + 1;
    }
    proof {
        assert(reps.take(events@.len() as int) =~= reps);
    }
    close_section_exec(&mut sections, &mut cur_section, &mut cur_key);
    Ok((sections, declared))
}

} // verus!
