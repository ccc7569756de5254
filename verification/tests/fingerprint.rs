use sc2_bank_signer::bank_parser::BankParser;
use sc2_bank_signer::bank_path::BankPath;

fn identity() -> BankPath {
    BankPath {
        full_path: String::from("bank.SC2Bank"),
        bank_name: String::from("Bank1"),
        author_handle: String::from("A1"),
        player_handle: String::from("P1"),
    }
}

fn parse(doc: &str) -> BankParser {
    BankParser::new(identity(), doc).expect("parse failed")
}

#[test]
fn example_fingerprint() {
    let doc = r#"<Bank><Section name="S"><Key name="K"><E int="5"/></Key></Section></Bank>"#;
    let b = parse(doc);
    assert_eq!(b.signature, "2C2F3EF7BB082588912A13E3F220C2E3558EEF40");
}

#[test]
fn value_change_changes_fingerprint() {
    let doc5 = r#"<Bank><Section name="S"><Key name="K"><E int="5"/></Key></Section></Bank>"#;
    let doc6 = r#"<Bank><Section name="S"><Key name="K"><E int="6"/></Key></Section></Bank>"#;
    let b5 = parse(doc5);
    let b6 = parse(doc6);
    assert_eq!(b6.signature, "FF15FB09C93695BE13F7EE856F4AD02C35ECBBD6");
    assert_ne!(b5.signature, b6.signature);
}

#[test]
fn fingerprint_idempotent() {
    let doc = r#"<Bank><Section name="S"><Key name="K"><E int="5"/></Key></Section></Bank>"#;
    let mut b = parse(doc);
    let first = b.signature.clone();
    b.compute_signature();
    assert_eq!(b.signature, first);
    let again = parse(doc);
    assert_eq!(again.signature, first);
}

#[test]
fn section_order_invariant() {
    let ab = r#"<Bank><Section name="A"><Key name="K"><E int="1"/></Key></Section><Section name="B"><Key name="K"><E int="2"/></Key></Section></Bank>"#;
    let ba = r#"<Bank><Section name="B"><Key name="K"><E int="2"/></Key></Section><Section name="A"><Key name="K"><E int="1"/></Key></Section></Bank>"#;
    assert_eq!(parse(ab).signature, parse(ba).signature);
}

#[test]
fn key_order_invariant() {
    let ab = r#"<Bank><Section name="S"><Key name="A"><E int="1"/></Key><Key name="B"><E int="2"/></Key></Section></Bank>"#;
    let ba = r#"<Bank><Section name="S"><Key name="B"><E int="2"/></Key><Key name="A"><E int="1"/></Key></Section></Bank>"#;
    assert_eq!(parse(ab).signature, parse(ba).signature);
}

#[test]
fn value_element_order_invariant() {
    let ab = r#"<Bank><Section name="S"><Key name="K"><A int="1"/><B int="2"/></Key></Section></Bank>"#;
    let ba = r#"<Bank><Section name="S"><Key name="K"><B int="2"/><A int="1"/></Key></Section></Bank>"#;
    assert_eq!(parse(ab).signature, parse(ba).signature);
}

#[test]
fn attribute_order_invariant() {
    let ab = r#"<Bank><Section name="S"><Key name="K"><E int="1" string="x"/></Key></Section></Bank>"#;
    let ba = r#"<Bank><Section name="S"><Key name="K"><E string="x" int="1"/></Key></Section></Bank>"#;
    assert_eq!(parse(ab).signature, parse(ba).signature);
}

#[test]
fn empty_key_dropped() {
    let doc = r#"<Bank><Section name="S"><Key name="K"><E int="5"/></Key><Key name="Empty"></Key></Section></Bank>"#;
    let plain = r#"<Bank><Section name="S"><Key name="K"><E int="5"/></Key></Section></Bank>"#;
    let b = parse(doc);
    assert_eq!(b.sections.len(), 1);
    assert_eq!(b.sections[0].keys.len(), 1);
    assert_eq!(b.signature, parse(plain).signature);
}

#[test]
fn section_with_only_empty_keys_dropped() {
    let doc = r#"<Bank><Section name="S"><Key name="K1"></Key><Key name="K2"></Key></Section></Bank>"#;
    let b = parse(doc);
    assert_eq!(b.sections.len(), 0);
    // The payload is the bare identity triple.
    assert_eq!(b.signature, "8B861AF6D9BB8DFF05D6646AACE7669251F65306");
}

#[test]
fn added_empty_section_contributes_nothing() {
    let d1 = r#"<Bank><Section name="S"><Key name="K"><E int="5"/></Key></Section></Bank>"#;
    let d2 = r#"<Bank><Section name="S"><Key name="K"><E int="5"/></Key></Section><Section name="X"><Key name="A"></Key><Key name="B"></Key></Section></Bank>"#;
    assert_eq!(parse(d1).signature, parse(d2).signature);
}

#[test]
fn text_value_excluded_from_fingerprint() {
    let one = r#"<Bank><Section name="S"><Key name="K"><E text="hello"/></Key></Section></Bank>"#;
    let two = r#"<Bank><Section name="S"><Key name="K"><E text="world"/></Key></Section></Bank>"#;
    assert_eq!(parse(one).signature, parse(two).signature);
}

#[test]
fn nontext_value_included_in_fingerprint() {
    let one = r#"<Bank><Section name="S"><Key name="K"><E string="hello"/></Key></Section></Bank>"#;
    let two = r#"<Bank><Section name="S"><Key name="K"><E string="world"/></Key></Section></Bank>"#;
    assert_ne!(parse(one).signature, parse(two).signature);
}

#[test]
fn signature_capture_and_compare() {
    let doc = r#"<Bank><Signature value="ABC"/><Section name="S"><Key name="K"><E int="5"/></Key></Section></Bank>"#;
    let b = parse(doc);
    assert_eq!(b.current_signature.as_deref(), Some("ABC"));
    assert!(!b.compare_signature());
    let good = r#"<Bank><Signature value="2C2F3EF7BB082588912A13E3F220C2E3558EEF40"/><Section name="S"><Key name="K"><E int="5"/></Key></Section></Bank>"#;
    assert!(parse(good).compare_signature());
}

#[test]
fn no_declared_signature_is_no_match() {
    let doc = r#"<Bank><Section name="S"><Key name="K"><E int="5"/></Key></Section></Bank>"#;
    let b = parse(doc);
    assert_eq!(b.current_signature, None);
    assert!(!b.compare_signature());
}

#[test]
fn key_outside_section_ignored() {
    let doc = r#"<Bank><Key name="Stray"><E int="5"/></Key><Section name="S"><Key name="K"><E int="5"/></Key></Section></Bank>"#;
    let b = parse(doc);
    assert_eq!(b.sections.len(), 1);
    assert_eq!(b.sections[0].keys.len(), 1);
    assert_eq!(b.sections[0].keys[0].name, "K");
}

#[test]
fn section_missing_name_is_fatal() {
    let doc = r#"<Bank><Section><Key name="K"><E int="5"/></Key></Section></Bank>"#;
    let r = BankParser::new(identity(), doc);
    match r {
        Err(sc2_bank_signer::AppError::BankParseError(
            sc2_bank_signer::bank_parser::BankParserError::SectionTagMissingName,
        )) => {}
        _ => panic!("expected SectionTagMissingName"),
    }
}

#[test]
fn key_missing_name_is_fatal() {
    let doc = r#"<Bank><Section name="S"><Key><E int="5"/></Key></Section></Bank>"#;
    let r = BankParser::new(identity(), doc);
    match r {
        Err(sc2_bank_signer::AppError::BankParseError(
            sc2_bank_signer::bank_parser::BankParserError::KeyTagMissingName,
        )) => {}
        _ => panic!("expected KeyTagMissingName"),
    }
}

#[test]
fn malformed_markup_is_fatal() {
    let doc = r#"<Bank><Section name="S"><Key name="K"></Section></Bank>"#;
    let r = BankParser::new(identity(), doc);
    match r {
        Err(sc2_bank_signer::AppError::XmlReaderError(_)) => {}
        _ => panic!("expected XmlReaderError"),
    }
}

#[test]
fn custom_attribute_preserved() {
    let one = r#"<Bank><Section name="S"><Key name="K"><E custom="a"/></Key></Section></Bank>"#;
    let two = r#"<Bank><Section name="S"><Key name="K"><E custom="b"/></Key></Section></Bank>"#;
    // An unknown attribute kind still feeds the fingerprint.
    assert_ne!(parse(one).signature, parse(two).signature);
}

#[test]
fn all_attribute_kinds_in_canonical_order() {
    // Attributes sort by canonical name (fixed, flag, int, string, text,
    // zz); the text attribute contributes its name only.
    let doc = r#"<Bank><Section name="S"><Key name="K"><E int="5" text="ignored" zz="9" fixed="2.50" flag="1" string="s"/></Key></Section></Bank>"#;
    // SHA-1 of "A1P1Bank1SKEfixed2.5flag1int5stringstextzz9".
    assert_eq!(
        parse(doc).signature,
        "C7C610950FFA8308FAA1240FCFBED2590A0352BC"
    );
}

#[test]
fn later_signature_tag_overwrites_declared() {
    let doc = r#"<Bank><Signature value="first"/><Section name="S"><Key name="K"><E int="5"/></Key></Section><Signature value="second"/></Bank>"#;
    assert_eq!(parse(doc).current_signature.as_deref(), Some("second"));
    // A Signature tag without a value attribute has nothing to capture:
    // the last captured value stays.
    let doc2 = r#"<Bank><Signature value="first"/><Section name="S"><Key name="K"><E int="5"/></Key></Section><Signature/></Bank>"#;
    assert_eq!(parse(doc2).current_signature.as_deref(), Some("first"));
    let doc3 = r#"<Bank><Signature/><Section name="S"><Key name="K"><E int="5"/></Key></Section></Bank>"#;
    assert_eq!(parse(doc3).current_signature, None);
}

#[test]
fn unparsable_int_becomes_zero() {
    let bad = r#"<Bank><Section name="S"><Key name="K"><E int="abc"/></Key></Section></Bank>"#;
    let zero = r#"<Bank><Section name="S"><Key name="K"><E int="0"/></Key></Section></Bank>"#;
    assert_eq!(parse(bad).signature, parse(zero).signature);
}
