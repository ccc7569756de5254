use sc2_bank_signer::AppError;
use sc2_bank_signer::bank_parser::BankParser;
use sc2_bank_signer::bank_path::BankPath;

fn identity() -> BankPath {
    BankPath {
        full_path: String::from("bank.SC2Bank"),
        bank_name: String::from("Bank1"),
        author_handle: String::from("A1"),
        player_handle: String::from("P1"),
    }
}

#[test]
fn rewrite_round_trip() {
    let doc = r#"<Bank><Section name="S"><Key name="K"><E int="5"/></Key></Section><Signature value="stale"/></Bank>"#;
    let b = BankParser::new(identity(), doc).unwrap();
    assert!(!b.compare_signature());
    let updated = b.replace_signature(doc).unwrap().expect("expected a change");
    let again = BankParser::new(identity(), updated.as_str()).unwrap();
    assert!(again.compare_signature());
    assert_eq!(again.current_signature.as_deref(), Some(b.signature.as_str()));
}

#[test]
fn rewrite_preserves_surroundings() {
    let doc = "<Bank><Section name=\"S\"><Key name=\"K\"><E int=\"5\"/></Key></Section><Signature  value=\"old\"  /></Bank>";
    let b = BankParser::new(identity(), doc).unwrap();
    let updated = b.replace_signature(doc).unwrap().expect("expected a change");
    let expected = format!(
        "<Bank><Section name=\"S\"><Key name=\"K\"><E int=\"5\"/></Key></Section><Signature  value=\"{}\"  /></Bank>",
        b.signature
    );
    assert_eq!(updated, expected);
}

#[test]
fn rewrite_idempotent() {
    let doc = r#"<Bank><Section name="S"><Key name="K"><E int="5"/></Key></Section><Signature value="stale"/></Bank>"#;
    let b = BankParser::new(identity(), doc).unwrap();
    let updated = b.replace_signature(doc).unwrap().expect("expected a change");
    // Writing the same signature again changes nothing.
    let again = b.replace_signature(updated.as_str()).unwrap();
    assert!(again.is_none());
}

#[test]
fn rewrite_noop_when_signature_matches() {
    let doc = r#"<Bank><Signature value="2C2F3EF7BB082588912A13E3F220C2E3558EEF40"/><Section name="S"><Key name="K"><E int="5"/></Key></Section></Bank>"#;
    let b = BankParser::new(identity(), doc).unwrap();
    assert!(b.compare_signature());
    let r = b.replace_signature(doc).unwrap();
    assert!(r.is_none());
}

#[test]
fn rewrite_without_declared_signature_fails() {
    let doc = r#"<Bank><Section name="S"><Key name="K"><E int="5"/></Key></Section></Bank>"#;
    let b = BankParser::new(identity(), doc).unwrap();
    match b.replace_signature(doc) {
        Err(AppError::SignatureNotFound) => {}
        _ => panic!("expected SignatureNotFound"),
    }
}

#[test]
fn rewrite_fails_closed_when_element_not_self_closing() {
    // The parser sees the declared value, but the text holds no
    // self-closing Signature element the rewriter could safely patch.
    let doc = r#"<Bank><Section name="S"><Key name="K"><E int="5"/></Key></Section><Signature value="old"></Signature></Bank>"#;
    let b = BankParser::new(identity(), doc).unwrap();
    assert_eq!(b.current_signature.as_deref(), Some("old"));
    match b.replace_signature(doc) {
        Err(AppError::SignatureNotFound) => {}
        _ => panic!("expected SignatureNotFound"),
    }
}

#[test]
fn rewrite_replaces_first_occurrence_only() {
    let doc = r#"<a><Signature value="one"/><Signature value="two"/></a>"#;
    let parse_doc = r#"<Bank><Section name="S"><Key name="K"><E int="5"/></Key></Section><Signature value="x"/></Bank>"#;
    let b = BankParser::new(identity(), parse_doc).unwrap();
    let updated = b.replace_signature(doc).unwrap().expect("expected a change");
    let expected = format!(
        "<a><Signature value=\"{}\"/><Signature value=\"two\"/></a>",
        b.signature
    );
    assert_eq!(updated, expected);
}
