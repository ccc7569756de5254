//! The properties the fingerprint pipeline is built around, stated and
//! proved over the payload and state-machine specifications.

use vstd::prelude::*;

verus! {

use crate::bank_parser::BankParserV;
use crate::bank_parser::attr_entry;
use crate::bank_parser::attrs_payload;
use crate::bank_parser::bank_fingerprint;
use crate::bank_parser::bank_payload;
use crate::bank_parser::elem_payload;
use crate::bank_parser::elems_payload;
use crate::bank_parser::key_payload;
use crate::bank_parser::keys_payload;
use crate::bank_parser::section_payload;
use crate::bank_parser::spec_signature;
use crate::bank_parser::attribute::AttrV;
use crate::bank_parser::key::KeyV;
use crate::bank_parser::machine::EventRep;
use crate::bank_parser::machine::MachineV;
use crate::bank_parser::machine::close_key;
use crate::bank_parser::machine::close_section;
use crate::bank_parser::machine::find_attr;
use crate::bank_parser::machine::init_state;
use crate::bank_parser::machine::lemma_run_from_append;
use crate::bank_parser::machine::lemma_run_steps_is_run_from;
use crate::bank_parser::machine::run_events;
use crate::bank_parser::machine::run_from;
use crate::bank_parser::machine::run_steps;
use crate::bank_parser::machine::step;
use crate::bank_parser::digest::is_upper_hex_digit;
use crate::bank_parser::rewrite::first_value_span;
use crate::bank_parser::rewrite::is_first_match;
use crate::bank_parser::rewrite::lemma_rewrite_first_match;
use crate::bank_parser::rewrite::lemma_splice_identity;
use crate::bank_parser::rewrite::replaced_text;
use crate::bank_parser::rewrite::sig_spans;
use crate::bank_parser::section::SectionV;
use crate::bank_parser::value_element::ElemV;
use crate::canon::SortKeyed;
use crate::canon::distinct_skeys;
use crate::canon::lemma_sort_multiset;
use crate::canon::lemma_sort_of_permutation;
use crate::canon::lemma_sort_related;
use crate::canon::sort_by_skey;
use crate::canon::unique_skeys;

broadcast use vstd::seq_lib::group_to_multiset_ensures;

/// The fingerprint is a function of the identity and the sections alone:
/// computing it twice, or on any bank with the same identity and sections,
/// yields the same hex string.
pub proof fn lemma_fingerprint_deterministic(b1: BankParserV, b2: BankParserV)
    requires
        b1.bank_path.author_handle == b2.bank_path.author_handle,
        b1.bank_path.player_handle == b2.bank_path.player_handle,
        b1.bank_path.bank_name == b2.bank_path.bank_name,
        b1.sections == b2.sections,
    ensures
        spec_signature(b1) == spec_signature(b2),
{
}

/// Reordering the sections of a bank changes neither the payload nor the
/// fingerprint, as long as no section name belongs to two different
/// sections.
pub proof fn lemma_section_order_invariant(
    author: Seq<char>,
    player: Seq<char>,
    bank: Seq<char>,
    s1: Seq<SectionV>,
    s2: Seq<SectionV>,
)
    requires
        s1.to_multiset() == s2.to_multiset(),
        unique_skeys(s1.to_multiset()),
    ensures
        bank_payload(author, player, bank, s1) == bank_payload(author, player, bank, s2),
        bank_fingerprint(author, player, bank, s1) == bank_fingerprint(author, player, bank, s2),
{
    lemma_sort_of_permutation(s1, s2);
}

/// The common case of section-order invariance: in a document whose
/// section names are pairwise distinct, any reordering of the sections
/// leaves payload and fingerprint unchanged.
pub proof fn lemma_section_order_invariant_distinct(
    author: Seq<char>,
    player: Seq<char>,
    bank: Seq<char>,
    s1: Seq<SectionV>,
    s2: Seq<SectionV>,
)
    requires
        s1.to_multiset() == s2.to_multiset(),
        crate::canon::distinct_skeys(s1),
    ensures
        bank_payload(author, player, bank, s1) == bank_payload(author, player, bank, s2),
        bank_fingerprint(author, player, bank, s1) == bank_fingerprint(author, player, bank, s2),
{
    crate::canon::lemma_distinct_skeys_unique(s1);
    lemma_section_order_invariant(author, player, bank, s1, s2);
}

/// Reordering the keys of a section does not change its payload, as long
/// as no key name belongs to two different keys.
pub proof fn lemma_key_order_invariant(sec1: SectionV, sec2: SectionV)
    requires
        sec1.name == sec2.name,
        sec1.keys.to_multiset() == sec2.keys.to_multiset(),
        unique_skeys(sec1.keys.to_multiset()),
    ensures
        section_payload(sec1) == section_payload(sec2),
{
    lemma_sort_of_permutation(sec1.keys, sec2.keys);
}

/// Reordering the value elements of a key does not change its payload, as
/// long as no tag name belongs to two different elements.
pub proof fn lemma_value_order_invariant(k1: KeyV, k2: KeyV)
    requires
        k1.name == k2.name,
        k1.values.to_multiset() == k2.values.to_multiset(),
        unique_skeys(k1.values.to_multiset()),
    ensures
        key_payload(k1) == key_payload(k2),
{
    lemma_sort_of_permutation(k1.values, k2.values);
}

/// Reordering the attributes of a value element does not change its
/// payload, as long as no attribute name belongs to two different
/// attributes.
pub proof fn lemma_attr_order_invariant(e1: ElemV, e2: ElemV)
    requires
        e1.tag == e2.tag,
        e1.attrs.to_multiset() == e2.attrs.to_multiset(),
        unique_skeys(e1.attrs.to_multiset()),
    ensures
        elem_payload(e1) == elem_payload(e2),
{
    lemma_sort_of_permutation(e1.attrs, e2.attrs);
}

/// Closing a key that holds no value elements only clears the key slot:
/// the key is not retained.
pub proof fn lemma_empty_key_dropped(st: MachineV)
    requires
        (st.cur_key matches Some(k) && k.values.len() == 0),
    ensures
        close_key(st) == (MachineV { cur_key: None, ..st }),
{
}

/// Closing a section whose keys were all dropped leaves the document's
/// sections unchanged: the section contributes nothing.
pub proof fn lemma_empty_section_dropped(st: MachineV)
    requires
        (st.cur_section matches Some(sec) && sec.keys.len() == 0),
        (st.cur_key matches Some(k) ==> k.values.len() == 0),
    ensures
        close_section(st).sections == st.sections,
{
}

/// Every retained key holds at least one value element.
pub open spec fn wf_keys(ks: Seq<KeyV>) -> bool {
    forall|i: int| 0 <= i < ks.len() ==> (#[trigger] ks[i]).values.len() > 0
}

/// Every retained section holds at least one key, each with at least one
/// value element.
pub open spec fn wf_sections(ss: Seq<SectionV>) -> bool {
    forall|i: int| 0 <= i < ss.len() ==> (#[trigger] ss[i]).keys.len() > 0 && wf_keys(ss[i].keys)
}

/// The machine's drop-rule invariant: finished sections are non-empty and
/// well-formed, and the open section's keys are too.
pub open spec fn wf_state(st: MachineV) -> bool {
    &&& wf_sections(st.sections)
    &&& (st.cur_section matches Some(sec) ==> wf_keys(sec.keys))
}

proof fn lemma_close_key_wf(st: MachineV)
    requires
        wf_state(st),
    ensures
        wf_state(close_key(st)),
{
    match st.cur_key {
        Some(k) => match st.cur_section {
            Some(sec) => {
                if k.values.len() > 0 {
                    assert(wf_keys(sec.keys.push(k))) by {
                        assert(forall|i: int|
                            0 <= i < sec.keys.len() ==> #[trigger] sec.keys.push(k)[i]
                                == sec.keys[i]);
                        assert(sec.keys.push(k)[sec.keys.len() as int] == k);
                    }
                }
            },
            None => {},
        },
        None => {},
    }
}

proof fn lemma_close_section_wf(st: MachineV)
    requires
        wf_state(st),
    ensures
        wf_state(close_section(st)),
{
    lemma_close_key_wf(st);
    let st1 = close_key(st);
    match st1.cur_section {
        Some(sec) => {
            if sec.keys.len() > 0 {
                assert(wf_sections(st1.sections.push(sec))) by {
                    assert(forall|i: int|
                        0 <= i < st1.sections.len() ==> #[trigger] st1.sections.push(sec)[i]
                            == st1.sections[i]);
                    assert(st1.sections.push(sec)[st1.sections.len() as int] == sec);
                }
            }
        },
        None => {},
    }
}

proof fn lemma_step_wf(st: MachineV, ev: EventRep)
    requires
        wf_state(st),
        step(st, ev) is Ok,
    ensures
        wf_state(step(st, ev)->Ok_0),
{
    lemma_close_key_wf(st);
    lemma_close_section_wf(st);
}

proof fn lemma_run_steps_wf(events: Seq<EventRep>)
    ensures
        run_steps(events) matches Ok(st) ==> wf_state(st),
    decreases events.len(),
{
    if events.len() > 0 {
        lemma_run_steps_wf(events.drop_last());
        match run_steps(events.drop_last()) {
            Ok(st) => {
                if step(st, events.last()) is Ok {
                    lemma_step_wf(st, events.last());
                }
            },
            Err(_) => {},
        }
    }
}

/// The drop rule as a global invariant of the parse result: every
/// retained section holds at least one key and every retained key at
/// least one value element.  Combined with `BankParser::new`'s contract,
/// this holds of every parsed bank's sections.
pub proof fn lemma_model_wf(events: Seq<EventRep>)
    ensures
        run_events(events) matches Ok(doc) ==> wf_sections(doc.0),
{
    lemma_run_steps_wf(events);
    match run_steps(events) {
        Ok(st) => {
            lemma_close_section_wf(st);
        },
        Err(_) => {},
    }
}

/// A run of key elements with no contents: `Key` opening tags, each with a
/// `name` attribute, each immediately closed.
pub open spec fn empty_key_pairs(es: Seq<EventRep>) -> bool
    decreases es.len(),
{
    if es.len() == 0 {
        true
    } else {
        &&& es.len() >= 2
        &&& es[0].0 && es[0].1 == "Key"@ && find_attr(es[0].2, "name"@) is Some
        &&& !es[1].0 && es[1].1 == "Key"@
        &&& empty_key_pairs(es.skip(2))
    }
}

/// A whole `Section` element whose key children are all empty: a named
/// `Section` opening tag, empty key elements, the closing tag.
pub open spec fn empty_section_block(es: Seq<EventRep>) -> bool {
    &&& es.len() >= 2
    &&& es[0].0 && es[0].1 == "Section"@ && find_attr(es[0].2, "name"@) is Some
    &&& !es.last().0 && es.last().1 == "Section"@
    &&& empty_key_pairs(es.subrange(1, es.len() - 1))
}

/// Empty key elements run the machine back to where it started.
proof fn lemma_empty_keys_noop(st: MachineV, es: Seq<EventRep>)
    requires
        empty_key_pairs(es),
        st.cur_section is Some,
        st.cur_key is None,
    ensures
        run_from(st, es) == Ok::<MachineV, crate::bank_parser::BankParserError>(st),
    decreases es.len(),
{
    if es.len() == 0 {
    } else {
        reveal_strlit("Key");
        reveal_strlit("Section");
        assert("Key"@ != "Section"@) by {
            assert("Key"@.len() == 3 && "Section"@.len() == 7);
        }
        let two = es.take(2);
        lemma_run_from_append(st, two, es.skip(2));
        assert(two + es.skip(2) =~= es);
        assert(two.drop_last() =~= seq![es[0]]);
        assert(seq![es[0]].drop_last() =~= Seq::<EventRep>::empty());
        assert(run_from(st, Seq::<EventRep>::empty()) == Ok::<
            MachineV,
            crate::bank_parser::BankParserError,
        >(st));
        assert(run_from(st, seq![es[0]]) == step(st, es[0]));
        // Opening the named key: closing the (absent) key first changes
        // nothing.
        assert(close_key(st) =~= st);
        let st1 = step(st, es[0])->Ok_0;
        assert(step(st, es[0]) is Ok);
        assert(run_from(st, two) == step(st1, es[1]));
        // Closing it again drops it: it has no value elements.
        assert(step(st1, es[1]) == Ok::<MachineV, crate::bank_parser::BankParserError>(st)) by {
            let sec = st.cur_section->0;
            assert(SectionV { name: sec.name, keys: sec.keys } =~= sec);
            assert(close_key(st1) =~= st);
        }
        assert(run_from(st, two) == Ok::<MachineV, crate::bank_parser::BankParserError>(st));
        lemma_empty_keys_noop(st, es.skip(2));
    }
}

/// A section whose keys are all empty contributes nothing: running its
/// whole element between any two streams, at a point where nothing is
/// open, leaves the machine's outcome untouched.
pub proof fn lemma_empty_section_contributes_nothing(
    pre: Seq<EventRep>,
    mid: Seq<EventRep>,
    post: Seq<EventRep>,
)
    requires
        empty_section_block(mid),
        (run_steps(pre) matches Ok(st) && st.cur_section is None && st.cur_key is None),
    ensures
        run_events(pre + mid + post) == run_events(pre + post),
{
    reveal_strlit("Key");
    reveal_strlit("Section");
    assert("Key"@ != "Section"@) by {
        assert("Key"@.len() == 3 && "Section"@.len() == 7);
    }
    let st = run_steps(pre)->Ok_0;
    lemma_run_steps_is_run_from(pre + mid + post);
    lemma_run_steps_is_run_from(pre + post);
    lemma_run_steps_is_run_from(pre);
    lemma_run_from_append(init_state(), pre, mid + post);
    lemma_run_from_append(init_state(), pre, post);
    assert(pre + mid + post =~= pre + (mid + post));
    lemma_run_from_append(st, mid, post);
    assert(run_from(st, mid) == Ok::<MachineV, crate::bank_parser::BankParserError>(st)) by {
        let inner = mid.subrange(1, mid.len() - 1);
        assert((seq![mid[0]] + inner) + seq![mid.last()] =~= mid);
        lemma_run_from_append(st, seq![mid[0]] + inner, seq![mid.last()]);
        lemma_run_from_append(st, seq![mid[0]], inner);
        assert(seq![mid[0]].drop_last() =~= Seq::<EventRep>::empty());
        assert(run_from(st, Seq::<EventRep>::empty()) == Ok::<
            MachineV,
            crate::bank_parser::BankParserError,
        >(st));
        assert(run_from(st, seq![mid[0]]) == step(st, mid[0]));
        // Opening the section closes nothing (nothing is open) and opens a
        // fresh, empty section.
        assert(close_key(st) =~= st);
        assert(close_section(st) =~= st);
        let st1 = step(st, mid[0])->Ok_0;
        assert(step(st, mid[0]) is Ok);
        assert(st1.cur_section is Some && st1.cur_key is None);
        lemma_empty_keys_noop(st1, inner);
        assert(run_from(st, seq![mid[0]] + inner) == Ok::<
            MachineV,
            crate::bank_parser::BankParserError,
        >(st1));
        let lastv = seq![mid.last()];
        assert(lastv.drop_last() =~= Seq::<EventRep>::empty());
        assert(run_from(st1, Seq::<EventRep>::empty()) == Ok::<
            MachineV,
            crate::bank_parser::BankParserError,
        >(st1));
        assert(run_from(st1, lastv) == step(st1, mid.last()));
        // Closing it drops it: it has no keys.
        assert(step(st1, mid.last()) == Ok::<MachineV, crate::bank_parser::BankParserError>(st))
            by {
            assert(close_key(st1) =~= st1);
            assert(close_section(st1) =~= st);
        }
    }
}

/// Two attributes equal except possibly in the value of a text-kind
/// attribute.
pub open spec fn attr_equiv_text(a1: AttrV, a2: AttrV) -> bool {
    &&& a1.name == a2.name
    &&& a1.text == a2.text
    &&& !a1.text ==> a1.value == a2.value
}

pub open spec fn elem_equiv_text(e1: ElemV, e2: ElemV) -> bool {
    &&& e1.tag == e2.tag
    &&& e1.attrs.len() == e2.attrs.len()
    &&& forall|i: int|
        0 <= i < e1.attrs.len() ==> attr_equiv_text(#[trigger] e1.attrs[i], e2.attrs[i])
}

pub open spec fn key_equiv_text(k1: KeyV, k2: KeyV) -> bool {
    &&& k1.name == k2.name
    &&& k1.values.len() == k2.values.len()
    &&& forall|i: int|
        0 <= i < k1.values.len() ==> elem_equiv_text(#[trigger] k1.values[i], k2.values[i])
}

pub open spec fn section_equiv_text(s1: SectionV, s2: SectionV) -> bool {
    &&& s1.name == s2.name
    &&& s1.keys.len() == s2.keys.len()
    &&& forall|i: int|
        0 <= i < s1.keys.len() ==> key_equiv_text(#[trigger] s1.keys[i], s2.keys[i])
}

proof fn lemma_attrs_payload_equiv(s1: Seq<AttrV>, s2: Seq<AttrV>)
    requires
        s1.len() == s2.len(),
        forall|i: int| 0 <= i < s1.len() ==> attr_equiv_text(#[trigger] s1[i], s2[i]),
    ensures
        attrs_payload(s1) == attrs_payload(s2),
    decreases s1.len(),
{
    if s1.len() > 0 {
        lemma_attrs_payload_equiv(s1.drop_last(), s2.drop_last());
        assert(attr_entry(s1.last()) == attr_entry(s2.last()));
    }
}

/// Changing only the values of text-kind attributes does not change a
/// value element's payload.
pub proof fn lemma_text_exclusion_elem(e1: ElemV, e2: ElemV)
    requires
        elem_equiv_text(e1, e2),
    ensures
        elem_payload(e1) == elem_payload(e2),
{
    lemma_sort_related(e1.attrs, e2.attrs, |a: AttrV, b: AttrV| attr_equiv_text(a, b));
    lemma_attrs_payload_equiv(sort_by_skey(e1.attrs), sort_by_skey(e2.attrs));
}

proof fn lemma_elems_payload_equiv(s1: Seq<ElemV>, s2: Seq<ElemV>)
    requires
        s1.len() == s2.len(),
        forall|i: int| 0 <= i < s1.len() ==> elem_equiv_text(#[trigger] s1[i], s2[i]),
    ensures
        elems_payload(s1) == elems_payload(s2),
    decreases s1.len(),
{
    if s1.len() > 0 {
        lemma_elems_payload_equiv(s1.drop_last(), s2.drop_last());
        lemma_text_exclusion_elem(s1.last(), s2.last());
    }
}

/// Changing only the values of text-kind attributes does not change a
/// key's payload.
pub proof fn lemma_text_exclusion_key(k1: KeyV, k2: KeyV)
    requires
        key_equiv_text(k1, k2),
    ensures
        key_payload(k1) == key_payload(k2),
{
    lemma_sort_related(k1.values, k2.values, |a: ElemV, b: ElemV| elem_equiv_text(a, b));
    lemma_elems_payload_equiv(sort_by_skey(k1.values), sort_by_skey(k2.values));
}

proof fn lemma_keys_payload_equiv(s1: Seq<KeyV>, s2: Seq<KeyV>)
    requires
        s1.len() == s2.len(),
        forall|i: int| 0 <= i < s1.len() ==> key_equiv_text(#[trigger] s1[i], s2[i]),
    ensures
        keys_payload(s1) == keys_payload(s2),
    decreases s1.len(),
{
    if s1.len() > 0 {
        lemma_keys_payload_equiv(s1.drop_last(), s2.drop_last());
        lemma_text_exclusion_key(s1.last(), s2.last());
    }
}

proof fn lemma_sections_payload_equiv(s1: Seq<SectionV>, s2: Seq<SectionV>)
    requires
        s1.len() == s2.len(),
        forall|i: int| 0 <= i < s1.len() ==> section_equiv_text(#[trigger] s1[i], s2[i]),
    ensures
        crate::bank_parser::sections_payload(s1) == crate::bank_parser::sections_payload(s2),
    decreases s1.len(),
{
    if s1.len() > 0 {
        lemma_sections_payload_equiv(s1.drop_last(), s2.drop_last());
        lemma_sort_related(
            s1.last().keys,
            s2.last().keys,
            |a: KeyV, b: KeyV| key_equiv_text(a, b),
        );
        lemma_keys_payload_equiv(sort_by_skey(s1.last().keys), sort_by_skey(s2.last().keys));
    }
}

/// Changing only the values of text-kind attributes changes neither the
/// payload nor the fingerprint of a bank.
pub proof fn lemma_text_exclusion_bank(
    author: Seq<char>,
    player: Seq<char>,
    bank: Seq<char>,
    s1: Seq<SectionV>,
    s2: Seq<SectionV>,
)
    requires
        s1.len() == s2.len(),
        forall|i: int| 0 <= i < s1.len() ==> section_equiv_text(#[trigger] s1[i], s2[i]),
    ensures
        bank_payload(author, player, bank, s1) == bank_payload(author, player, bank, s2),
        bank_fingerprint(author, player, bank, s1) == bank_fingerprint(author, player, bank, s2),
{
    lemma_sort_related(s1, s2, |a: SectionV, b: SectionV| section_equiv_text(a, b));
    lemma_sections_payload_equiv(sort_by_skey(s1), sort_by_skey(s2));
}

/// Changing the value of any non-text attribute changes its payload entry.
pub proof fn lemma_nontext_value_included(a1: AttrV, a2: AttrV)
    requires
        a1.name == a2.name,
        !a1.text,
        !a2.text,
        a1.value != a2.value,
    ensures
        attr_entry(a1) != attr_entry(a2),
{
    if attr_entry(a1) == attr_entry(a2) {
        assert((a1.name + a1.value).len() == a1.name.len() + a1.value.len());
        assert((a2.name + a2.value).len() == a2.name.len() + a2.value.len());
        assert(a1.value.len() == a2.value.len());
        assert(a1.value =~= a2.value) by {
            assert(forall|k: int|
                0 <= k < a1.value.len() ==> #[trigger] a1.value[k] == (a1.name + a1.value)[a1.name.len()
                    + k] && a2.value[k] == (a2.name + a2.value)[a2.name.len() + k]);
        }
    }
}

proof fn lemma_concat_right_cancel(a: Seq<char>, b: Seq<char>, c: Seq<char>)
    requires
        a + c == b + c,
    ensures
        a == b,
{
    assert((a + c).len() == a.len() + c.len());
    assert((b + c).len() == b.len() + c.len());
    assert(a =~= b) by {
        assert(forall|k: int|
            0 <= k < a.len() ==> #[trigger] a[k] == (a + c)[k] && b[k] == (b + c)[k]);
    }
}

proof fn lemma_concat_left_cancel(x: Seq<char>, a: Seq<char>, b: Seq<char>)
    requires
        x + a == x + b,
    ensures
        a == b,
{
    assert((x + a).len() == x.len() + a.len());
    assert((x + b).len() == x.len() + b.len());
    assert(a =~= b) by {
        assert(forall|k: int|
            0 <= k < a.len() ==> #[trigger] a[k] == (x + a)[x.len() + k] && b[k] == (x + b)[
                x.len() + k
            ]);
    }
}

proof fn lemma_attrs_payload_entries(s1: Seq<AttrV>, s2: Seq<AttrV>)
    requires
        s1.len() == s2.len(),
        forall|i: int| 0 <= i < s1.len() ==> attr_entry(#[trigger] s1[i]) == attr_entry(s2[i]),
    ensures
        attrs_payload(s1) == attrs_payload(s2),
    decreases s1.len(),
{
    if s1.len() > 0 {
        lemma_attrs_payload_entries(s1.drop_last(), s2.drop_last());
    }
}

proof fn lemma_attrs_payload_single_diff(s1: Seq<AttrV>, s2: Seq<AttrV>, j: int)
    requires
        s1.len() == s2.len(),
        0 <= j < s1.len(),
        forall|i: int|
            0 <= i < s1.len() && i != j ==> attr_entry(#[trigger] s1[i]) == attr_entry(s2[i]),
        attr_entry(s1[j]) != attr_entry(s2[j]),
    ensures
        attrs_payload(s1) != attrs_payload(s2),
    decreases s1.len(),
{
    if attrs_payload(s1) == attrs_payload(s2) {
        if j == s1.len() - 1 {
            lemma_attrs_payload_entries(s1.drop_last(), s2.drop_last());
            lemma_concat_left_cancel(
                attrs_payload(s1.drop_last()),
                attr_entry(s1.last()),
                attr_entry(s2.last()),
            );
        } else {
            lemma_concat_right_cancel(
                attrs_payload(s1.drop_last()),
                attrs_payload(s2.drop_last()),
                attr_entry(s1.last()),
            );
            lemma_attrs_payload_single_diff(s1.drop_last(), s2.drop_last(), j);
        }
    }
}

/// Changing the value of one non-text attribute of a value element whose
/// attribute names are pairwise distinct changes the element's payload.
pub proof fn lemma_nontext_change_elem(e1: ElemV, e2: ElemV, j: int)
    requires
        e1.tag == e2.tag,
        e1.attrs.len() == e2.attrs.len(),
        0 <= j < e1.attrs.len(),
        forall|i: int| 0 <= i < e1.attrs.len() && i != j ==> #[trigger] e1.attrs[i] == e2.attrs[i],
        e1.attrs[j].name == e2.attrs[j].name,
        !e1.attrs[j].text,
        !e2.attrs[j].text,
        e1.attrs[j].value != e2.attrs[j].value,
        distinct_skeys(e1.attrs),
    ensures
        elem_payload(e1) != elem_payload(e2),
{
    let x1 = e1.attrs[j];
    let x2 = e2.attrs[j];
    lemma_nontext_value_included(x1, x2);
    let t1 = sort_by_skey(e1.attrs);
    let t2 = sort_by_skey(e2.attrs);
    assert(forall|i: int|
        0 <= i < e1.attrs.len() ==> (#[trigger] e1.attrs[i]).skey() == e2.attrs[i].skey());
    lemma_sort_related(e1.attrs, e2.attrs, |a: AttrV, b: AttrV| a == b || (a == x1 && b == x2));
    lemma_sort_multiset(e1.attrs);
    lemma_sort_multiset(e2.attrs);
    assert(e1.attrs.no_duplicates()) by {
        assert forall|p: int, q: int|
            0 <= p < e1.attrs.len() && 0 <= q < e1.attrs.len() && p != q implies e1.attrs[p]
            != e1.attrs[q] by {
            if p < q {
                assert(e1.attrs[p].skey() != e1.attrs[q].skey());
            } else {
                assert(e1.attrs[q].skey() != e1.attrs[p].skey());
            }
        }
    }
    e1.attrs.lemma_multiset_has_no_duplicates();
    assert(forall|x: AttrV| t1.to_multiset().contains(x) ==> t1.to_multiset().count(x) == 1);
    t1.lemma_multiset_has_no_duplicates_conv();
    if forall|p: int| 0 <= p < t1.len() ==> #[trigger] t1[p] == t2[p] {
        assert(t1 =~= t2);
        assert(e1.attrs.to_multiset() == e2.attrs.to_multiset());
        assert(e1.attrs.contains(x1)) by {
            assert(e1.attrs[j] == x1);
        }
        assert(e2.attrs.to_multiset().count(x1) > 0);
        assert(e2.attrs.contains(x1));
        let i2 = choose|i2: int| 0 <= i2 < e2.attrs.len() && e2.attrs[i2] == x1;
        assert(i2 == j) by {
            if i2 != j {
                assert(e1.attrs[i2] == e2.attrs[i2]);
                if i2 < j {
                    assert(e1.attrs[i2].skey() != e1.attrs[j].skey());
                } else {
                    assert(e1.attrs[j].skey() != e1.attrs[i2].skey());
                }
            }
        }
        assert(x2.value == x1.value);
        assert(false);
    }
    let p = choose|p: int| 0 <= p < t1.len() && t1[p] != t2[p];
    assert(t1[p] == x1 && t2[p] == x2);
    assert forall|q: int| 0 <= q < t1.len() && q != p implies attr_entry(#[trigger] t1[q])
        == attr_entry(t2[q]) by {
        if t1[q] != t2[q] {
            assert(t1[q] == x1 && t1[p] == x1);
        }
    }
    lemma_attrs_payload_single_diff(t1, t2, p);
    if elem_payload(e1) == elem_payload(e2) {
        lemma_concat_left_cancel(e1.tag, attrs_payload(t1), attrs_payload(t2));
    }
}

proof fn lemma_elems_payload_entries(s1: Seq<ElemV>, s2: Seq<ElemV>)
    requires
        s1.len() == s2.len(),
        forall|i: int| 0 <= i < s1.len() ==> elem_payload(#[trigger] s1[i]) == elem_payload(s2[i]),
    ensures
        elems_payload(s1) == elems_payload(s2),
    decreases s1.len(),
{
    if s1.len() > 0 {
        lemma_elems_payload_entries(s1.drop_last(), s2.drop_last());
    }
}

proof fn lemma_elems_payload_single_diff(s1: Seq<ElemV>, s2: Seq<ElemV>, j: int)
    requires
        s1.len() == s2.len(),
        0 <= j < s1.len(),
        forall|i: int|
            0 <= i < s1.len() && i != j ==> elem_payload(#[trigger] s1[i]) == elem_payload(s2[i]),
        elem_payload(s1[j]) != elem_payload(s2[j]),
    ensures
        elems_payload(s1) != elems_payload(s2),
    decreases s1.len(),
{
    if elems_payload(s1) == elems_payload(s2) {
        if j == s1.len() - 1 {
            lemma_elems_payload_entries(s1.drop_last(), s2.drop_last());
            lemma_concat_left_cancel(
                elems_payload(s1.drop_last()),
                elem_payload(s1.last()),
                elem_payload(s2.last()),
            );
        } else {
            lemma_concat_right_cancel(
                elems_payload(s1.drop_last()),
                elems_payload(s2.drop_last()),
                elem_payload(s1.last()),
            );
            lemma_elems_payload_single_diff(s1.drop_last(), s2.drop_last(), j);
        }
    }
}

/// Changing one value element of a key — same tag, different payload — in
/// a key whose element tags are pairwise distinct changes the key's
/// payload.
pub proof fn lemma_elem_change_key(k1: KeyV, k2: KeyV, j: int)
    requires
        k1.name == k2.name,
        k1.values.len() == k2.values.len(),
        0 <= j < k1.values.len(),
        forall|i: int|
            0 <= i < k1.values.len() && i != j ==> #[trigger] k1.values[i] == k2.values[i],
        k1.values[j].tag == k2.values[j].tag,
        elem_payload(k1.values[j]) != elem_payload(k2.values[j]),
        distinct_skeys(k1.values),
    ensures
        key_payload(k1) != key_payload(k2),
{
    let x1 = k1.values[j];
    let x2 = k2.values[j];
    let t1 = sort_by_skey(k1.values);
    let t2 = sort_by_skey(k2.values);
    assert(forall|i: int|
        0 <= i < k1.values.len() ==> (#[trigger] k1.values[i]).skey() == k2.values[i].skey());
    lemma_sort_related(k1.values, k2.values, |a: ElemV, b: ElemV| a == b || (a == x1 && b == x2));
    lemma_sort_multiset(k1.values);
    lemma_sort_multiset(k2.values);
    assert(k1.values.no_duplicates()) by {
        assert forall|p: int, q: int|
            0 <= p < k1.values.len() && 0 <= q < k1.values.len() && p != q implies k1.values[p]
            != k1.values[q] by {
            if p < q {
                assert(k1.values[p].skey() != k1.values[q].skey());
            } else {
                assert(k1.values[q].skey() != k1.values[p].skey());
            }
        }
    }
    k1.values.lemma_multiset_has_no_duplicates();
    assert(forall|x: ElemV| t1.to_multiset().contains(x) ==> t1.to_multiset().count(x) == 1);
    t1.lemma_multiset_has_no_duplicates_conv();
    if forall|p: int| 0 <= p < t1.len() ==> #[trigger] t1[p] == t2[p] {
        assert(t1 =~= t2);
        assert(k1.values.to_multiset() == k2.values.to_multiset());
        assert(k1.values.contains(x1)) by {
            assert(k1.values[j] == x1);
        }
        assert(k2.values.to_multiset().count(x1) > 0);
        assert(k2.values.contains(x1));
        let i2 = choose|i2: int| 0 <= i2 < k2.values.len() && k2.values[i2] == x1;
        assert(i2 == j) by {
            if i2 != j {
                assert(k1.values[i2] == k2.values[i2]);
                if i2 < j {
                    assert(k1.values[i2].skey() != k1.values[j].skey());
                } else {
                    assert(k1.values[j].skey() != k1.values[i2].skey());
                }
            }
        }
        assert(x2 == x1);
        assert(false);
    }
    let p = choose|p: int| 0 <= p < t1.len() && t1[p] != t2[p];
    assert(t1[p] == x1 && t2[p] == x2);
    assert forall|q: int| 0 <= q < t1.len() && q != p implies elem_payload(#[trigger] t1[q])
        == elem_payload(t2[q]) by {
        if t1[q] != t2[q] {
            assert(t1[q] == x1 && t1[p] == x1);
        }
    }
    lemma_elems_payload_single_diff(t1, t2, p);
    if key_payload(k1) == key_payload(k2) {
        lemma_concat_left_cancel(k1.name, elems_payload(t1), elems_payload(t2));
    }
}

proof fn lemma_keys_payload_entries(s1: Seq<KeyV>, s2: Seq<KeyV>)
    requires
        s1.len() == s2.len(),
        forall|i: int| 0 <= i < s1.len() ==> key_payload(#[trigger] s1[i]) == key_payload(s2[i]),
    ensures
        keys_payload(s1) == keys_payload(s2),
    decreases s1.len(),
{
    if s1.len() > 0 {
        lemma_keys_payload_entries(s1.drop_last(), s2.drop_last());
    }
}

proof fn lemma_keys_payload_single_diff(s1: Seq<KeyV>, s2: Seq<KeyV>, j: int)
    requires
        s1.len() == s2.len(),
        0 <= j < s1.len(),
        forall|i: int|
            0 <= i < s1.len() && i != j ==> key_payload(#[trigger] s1[i]) == key_payload(s2[i]),
        key_payload(s1[j]) != key_payload(s2[j]),
    ensures
        keys_payload(s1) != keys_payload(s2),
    decreases s1.len(),
{
    if keys_payload(s1) == keys_payload(s2) {
        if j == s1.len() - 1 {
            lemma_keys_payload_entries(s1.drop_last(), s2.drop_last());
            lemma_concat_left_cancel(
                keys_payload(s1.drop_last()),
                key_payload(s1.last()),
                key_payload(s2.last()),
            );
        } else {
            lemma_concat_right_cancel(
                keys_payload(s1.drop_last()),
                keys_payload(s2.drop_last()),
                key_payload(s1.last()),
            );
            lemma_keys_payload_single_diff(s1.drop_last(), s2.drop_last(), j);
        }
    }
}

/// Changing one key of a section — same name, different payload — in a
/// section whose key names are pairwise distinct changes the section's
/// payload.
pub proof fn lemma_key_change_section(sec1: SectionV, sec2: SectionV, j: int)
    requires
        sec1.name == sec2.name,
        sec1.keys.len() == sec2.keys.len(),
        0 <= j < sec1.keys.len(),
        forall|i: int| 0 <= i < sec1.keys.len() && i != j ==> #[trigger] sec1.keys[i]
            == sec2.keys[i],
        sec1.keys[j].name == sec2.keys[j].name,
        key_payload(sec1.keys[j]) != key_payload(sec2.keys[j]),
        distinct_skeys(sec1.keys),
    ensures
        section_payload(sec1) != section_payload(sec2),
{
    let x1 = sec1.keys[j];
    let x2 = sec2.keys[j];
    let t1 = sort_by_skey(sec1.keys);
    let t2 = sort_by_skey(sec2.keys);
    assert(forall|i: int|
        0 <= i < sec1.keys.len() ==> (#[trigger] sec1.keys[i]).skey() == sec2.keys[i].skey());
    lemma_sort_related(sec1.keys, sec2.keys, |a: KeyV, b: KeyV| a == b || (a == x1 && b == x2));
    lemma_sort_multiset(sec1.keys);
    lemma_sort_multiset(sec2.keys);
    assert(sec1.keys.no_duplicates()) by {
        assert forall|p: int, q: int|
            0 <= p < sec1.keys.len() && 0 <= q < sec1.keys.len() && p != q implies sec1.keys[p]
            != sec1.keys[q] by {
            if p < q {
                assert(sec1.keys[p].skey() != sec1.keys[q].skey());
            } else {
                assert(sec1.keys[q].skey() != sec1.keys[p].skey());
            }
        }
    }
    sec1.keys.lemma_multiset_has_no_duplicates();
    assert(forall|x: KeyV| t1.to_multiset().contains(x) ==> t1.to_multiset().count(x) == 1);
    t1.lemma_multiset_has_no_duplicates_conv();
    if forall|p: int| 0 <= p < t1.len() ==> #[trigger] t1[p] == t2[p] {
        assert(t1 =~= t2);
        assert(sec1.keys.to_multiset() == sec2.keys.to_multiset());
        assert(sec1.keys.contains(x1)) by {
            assert(sec1.keys[j] == x1);
        }
        assert(sec2.keys.to_multiset().count(x1) > 0);
        assert(sec2.keys.contains(x1));
        let i2 = choose|i2: int| 0 <= i2 < sec2.keys.len() && sec2.keys[i2] == x1;
        assert(i2 == j) by {
            if i2 != j {
                assert(sec1.keys[i2] == sec2.keys[i2]);
                if i2 < j {
                    assert(sec1.keys[i2].skey() != sec1.keys[j].skey());
                } else {
                    assert(sec1.keys[j].skey() != sec1.keys[i2].skey());
                }
            }
        }
        assert(x2 == x1);
        assert(false);
    }
    let p = choose|p: int| 0 <= p < t1.len() && t1[p] != t2[p];
    assert(t1[p] == x1 && t2[p] == x2);
    assert forall|q: int| 0 <= q < t1.len() && q != p implies key_payload(#[trigger] t1[q])
        == key_payload(t2[q]) by {
        if t1[q] != t2[q] {
            assert(t1[q] == x1 && t1[p] == x1);
        }
    }
    lemma_keys_payload_single_diff(t1, t2, p);
    if section_payload(sec1) == section_payload(sec2) {
        lemma_concat_left_cancel(sec1.name, keys_payload(t1), keys_payload(t2));
    }
}

proof fn lemma_sections_payload_entries(s1: Seq<SectionV>, s2: Seq<SectionV>)
    requires
        s1.len() == s2.len(),
        forall|i: int|
            0 <= i < s1.len() ==> section_payload(#[trigger] s1[i]) == section_payload(s2[i]),
    ensures
        crate::bank_parser::sections_payload(s1) == crate::bank_parser::sections_payload(s2),
    decreases s1.len(),
{
    if s1.len() > 0 {
        lemma_sections_payload_entries(s1.drop_last(), s2.drop_last());
    }
}

proof fn lemma_sections_payload_single_diff(s1: Seq<SectionV>, s2: Seq<SectionV>, j: int)
    requires
        s1.len() == s2.len(),
        0 <= j < s1.len(),
        forall|i: int|
            0 <= i < s1.len() && i != j ==> section_payload(#[trigger] s1[i]) == section_payload(
                s2[i],
            ),
        section_payload(s1[j]) != section_payload(s2[j]),
    ensures
        crate::bank_parser::sections_payload(s1) != crate::bank_parser::sections_payload(s2),
    decreases s1.len(),
{
    if crate::bank_parser::sections_payload(s1) == crate::bank_parser::sections_payload(s2) {
        if j == s1.len() - 1 {
            lemma_sections_payload_entries(s1.drop_last(), s2.drop_last());
            lemma_concat_left_cancel(
                crate::bank_parser::sections_payload(s1.drop_last()),
                section_payload(s1.last()),
                section_payload(s2.last()),
            );
        } else {
            lemma_concat_right_cancel(
                crate::bank_parser::sections_payload(s1.drop_last()),
                crate::bank_parser::sections_payload(s2.drop_last()),
                section_payload(s1.last()),
            );
            lemma_sections_payload_single_diff(s1.drop_last(), s2.drop_last(), j);
        }
    }
}

/// Changing one section of a bank — same name, different payload — in a
/// bank whose section names are pairwise distinct changes the whole
/// payload.  Together with `lemma_nontext_change_elem`,
/// `lemma_elem_change_key` and `lemma_key_change_section`, this lifts a
/// changed non-text attribute value all the way to the bank payload.
/// Inequality of the *digest* does not follow: that would be collision
/// freedom of the hash, which nothing can state of it.
pub proof fn lemma_section_change_bank(
    author: Seq<char>,
    player: Seq<char>,
    bank: Seq<char>,
    s1: Seq<SectionV>,
    s2: Seq<SectionV>,
    j: int,
)
    requires
        s1.len() == s2.len(),
        0 <= j < s1.len(),
        forall|i: int| 0 <= i < s1.len() && i != j ==> #[trigger] s1[i] == s2[i],
        s1[j].name == s2[j].name,
        section_payload(s1[j]) != section_payload(s2[j]),
        distinct_skeys(s1),
    ensures
        bank_payload(author, player, bank, s1) != bank_payload(author, player, bank, s2),
{
    let x1 = s1[j];
    let x2 = s2[j];
    let t1 = sort_by_skey(s1);
    let t2 = sort_by_skey(s2);
    assert(forall|i: int| 0 <= i < s1.len() ==> (#[trigger] s1[i]).skey() == s2[i].skey());
    lemma_sort_related(s1, s2, |a: SectionV, b: SectionV| a == b || (a == x1 && b == x2));
    lemma_sort_multiset(s1);
    lemma_sort_multiset(s2);
    assert(s1.no_duplicates()) by {
        assert forall|p: int, q: int|
            0 <= p < s1.len() && 0 <= q < s1.len() && p != q implies s1[p] != s1[q] by {
            if p < q {
                assert(s1[p].skey() != s1[q].skey());
            } else {
                assert(s1[q].skey() != s1[p].skey());
            }
        }
    }
    s1.lemma_multiset_has_no_duplicates();
    assert(forall|x: SectionV| t1.to_multiset().contains(x) ==> t1.to_multiset().count(x) == 1);
    t1.lemma_multiset_has_no_duplicates_conv();
    if forall|p: int| 0 <= p < t1.len() ==> #[trigger] t1[p] == t2[p] {
        assert(t1 =~= t2);
        assert(s1.to_multiset() == s2.to_multiset());
        assert(s1.contains(x1)) by {
            assert(s1[j] == x1);
        }
        assert(s2.to_multiset().count(x1) > 0);
        assert(s2.contains(x1));
        let i2 = choose|i2: int| 0 <= i2 < s2.len() && s2[i2] == x1;
        assert(i2 == j) by {
            if i2 != j {
                assert(s1[i2] == s2[i2]);
                if i2 < j {
                    assert(s1[i2].skey() != s1[j].skey());
                } else {
                    assert(s1[j].skey() != s1[i2].skey());
                }
            }
        }
        assert(x2 == x1);
        assert(false);
    }
    let p = choose|p: int| 0 <= p < t1.len() && t1[p] != t2[p];
    assert(t1[p] == x1 && t2[p] == x2);
    assert forall|q: int| 0 <= q < t1.len() && q != p implies section_payload(#[trigger] t1[q])
        == section_payload(t2[q]) by {
        if t1[q] != t2[q] {
            assert(t1[q] == x1 && t1[p] == x1);
        }
    }
    lemma_sections_payload_single_diff(t1, t2, p);
    if bank_payload(author, player, bank, s1) == bank_payload(author, player, bank, s2) {
        lemma_concat_left_cancel(
            author + player + bank,
            crate::bank_parser::sections_payload(t1),
            crate::bank_parser::sections_payload(t2),
        );
        assert(author + player + bank + crate::bank_parser::sections_payload(t1) =~= (author
            + player + bank) + crate::bank_parser::sections_payload(t1));
        assert(author + player + bank + crate::bank_parser::sections_payload(t2) =~= (author
            + player + bank) + crate::bank_parser::sections_payload(t2));
    }
}

/// Changing the value of one non-text attribute changes the bank's whole
/// payload: the banks are equal except along one path (section `js`, key
/// `jk`, value element `je`, attribute `ja`), where only that attribute's
/// value differs, and sibling names are pairwise distinct at each level of
/// the path.  Inequality of the digest itself would be collision freedom
/// of the hash, which nothing can state of it.
pub proof fn lemma_nontext_value_changes_payload(
    author: Seq<char>,
    player: Seq<char>,
    bank: Seq<char>,
    s1: Seq<SectionV>,
    s2: Seq<SectionV>,
    js: int,
    jk: int,
    je: int,
    ja: int,
)
    requires
        s1.len() == s2.len(),
        0 <= js < s1.len(),
        forall|i: int| 0 <= i < s1.len() && i != js ==> #[trigger] s1[i] == s2[i],
        distinct_skeys(s1),
        s1[js].name == s2[js].name,
        s1[js].keys.len() == s2[js].keys.len(),
        0 <= jk < s1[js].keys.len(),
        forall|i: int|
            0 <= i < s1[js].keys.len() && i != jk ==> #[trigger] s1[js].keys[i]
                == s2[js].keys[i],
        distinct_skeys(s1[js].keys),
        s1[js].keys[jk].name == s2[js].keys[jk].name,
        s1[js].keys[jk].values.len() == s2[js].keys[jk].values.len(),
        0 <= je < s1[js].keys[jk].values.len(),
        forall|i: int|
            0 <= i < s1[js].keys[jk].values.len() && i != je ==> #[trigger] s1[js].keys[jk].values[i]
                == s2[js].keys[jk].values[i],
        distinct_skeys(s1[js].keys[jk].values),
        s1[js].keys[jk].values[je].tag == s2[js].keys[jk].values[je].tag,
        s1[js].keys[jk].values[je].attrs.len() == s2[js].keys[jk].values[je].attrs.len(),
        0 <= ja < s1[js].keys[jk].values[je].attrs.len(),
        forall|i: int|
            0 <= i < s1[js].keys[jk].values[je].attrs.len() && i != ja
                ==> #[trigger] s1[js].keys[jk].values[je].attrs[i]
                == s2[js].keys[jk].values[je].attrs[i],
        distinct_skeys(s1[js].keys[jk].values[je].attrs),
        s1[js].keys[jk].values[je].attrs[ja].name == s2[js].keys[jk].values[je].attrs[ja].name,
        !s1[js].keys[jk].values[je].attrs[ja].text,
        !s2[js].keys[jk].values[je].attrs[ja].text,
        s1[js].keys[jk].values[je].attrs[ja].value != s2[js].keys[jk].values[je].attrs[ja].value,
    ensures
        bank_payload(author, player, bank, s1) != bank_payload(author, player, bank, s2),
{
    lemma_nontext_change_elem(s1[js].keys[jk].values[je], s2[js].keys[jk].values[je], ja);
    lemma_elem_change_key(s1[js].keys[jk], s2[js].keys[jk], je);
    lemma_key_change_section(s1[js], s2[js], jk);
    lemma_section_change_bank(author, player, bank, s1, s2, js);
}

/// When the computed signature already stands in the text, the rewrite is
/// a no-op: the replaced text is byte-identical to the original.
pub proof fn lemma_noop_rewrite(s: Seq<char>, sig: Seq<char>)
    requires
        (first_value_span(s) matches Some(span) && s.subrange(span.0, span.1) == sig),
    ensures
        replaced_text(s, sig) == Some(s),
{
    let span = first_value_span(s)->0;
    let i = choose|i: int| is_first_match(s, i);
    let (w, b, e) = choose|w: int, b: int, e: int| sig_spans(s, i, w, b, e);
    lemma_splice_identity(s, sig, span.0, span.1);
}

/// After a rewrite with a non-empty uppercase-hexadecimal signature — the
/// shape every fingerprint has — the new text's *first* `Signature` match
/// holds exactly the written signature in its value span.
pub proof fn lemma_rewrite_embeds_signature(s: Seq<char>, sig: Seq<char>)
    requires
        replaced_text(s, sig) is Some,
        sig.len() > 0,
        forall|k: int|
            0 <= k < sig.len() ==> is_upper_hex_digit(#[trigger] sig[k]),
    ensures
        ({
            let t = replaced_text(s, sig)->0;
            first_value_span(t) matches Some(span) && t.subrange(span.0, span.1) == sig
        }),
{
    let i = choose|i: int| is_first_match(s, i);
    let (w, b, e) = choose|w: int, b: int, e: int| sig_spans(s, i, w, b, e);
    lemma_rewrite_first_match(s, sig, i, w, b, e);
}

/// Rewriting is idempotent: writing the same signature into the rewritten
/// text again changes nothing.
pub proof fn lemma_rewrite_idempotent(s: Seq<char>, sig: Seq<char>)
    requires
        replaced_text(s, sig) is Some,
        sig.len() > 0,
        forall|k: int|
            0 <= k < sig.len() ==> is_upper_hex_digit(#[trigger] sig[k]),
    ensures
        ({
            let t = replaced_text(s, sig)->0;
            replaced_text(t, sig) == Some(t)
        }),
{
    lemma_rewrite_embeds_signature(s, sig);
    let t = replaced_text(s, sig)->0;
    lemma_noop_rewrite(t, sig);
}

/// A fingerprint is never empty and consists of uppercase hexadecimal
/// digits alone: forty of them, two per digest byte.
pub proof fn lemma_signature_shape(b: BankParserV)
    ensures
        forall|k: int|
            0 <= k < spec_signature(b).len() ==> is_upper_hex_digit(
                #[trigger] spec_signature(b)[k],
            ),
        spec_signature(b).len() == 2 * crate::bank_parser::digest::sha1_of(
            bank_payload(
                b.bank_path.author_handle,
                b.bank_path.player_handle,
                b.bank_path.bank_name,
                b.sections,
            ),
        ).len(),
{
    crate::bank_parser::digest::lemma_hex_upper_chars(
        crate::bank_parser::digest::sha1_of(
            bank_payload(
                b.bank_path.author_handle,
                b.bank_path.player_handle,
                b.bank_path.bank_name,
                b.sections,
            ),
        ),
    );
}

} // verus!
