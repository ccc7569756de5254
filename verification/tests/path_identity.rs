use sc2_bank_signer::AppError;
use sc2_bank_signer::Args;
use sc2_bank_signer::bank_path::BankPath;
use sc2_bank_signer::bank_path::BankPathError;

fn args(path: &str) -> Args {
    Args {
        bank_path: String::from(path),
        bank_name: None,
        author_handle: None,
        player_handle: None,
        write: false,
    }
}

#[test]
fn identity_from_path() {
    // The layout is …/<player>/<group>/<author>/<bank>.
    let bp = BankPath::new(&args("player/Banks/author/file.SC2Bank")).unwrap();
    assert_eq!(bp.bank_name, "file");
    assert_eq!(bp.author_handle, "author");
    assert_eq!(bp.player_handle, "player");
    assert_eq!(bp.full_path, "player/Banks/author/file.SC2Bank");
}

#[test]
fn identity_from_absolute_path() {
    let bp = BankPath::new(&args("/users/alice/Banks/bob/file.SC2Bank")).unwrap();
    assert_eq!(bp.bank_name, "file");
    assert_eq!(bp.author_handle, "bob");
    assert_eq!(bp.player_handle, "alice");
}

#[test]
fn identity_overrides() {
    let mut a = args("x.SC2Bank");
    a.bank_name = Some(String::from("RealName"));
    a.author_handle = Some(String::from("AH"));
    a.player_handle = Some(String::from("PH"));
    let bp = BankPath::new(&a).unwrap();
    assert_eq!(bp.bank_name, "RealName");
    assert_eq!(bp.author_handle, "AH");
    assert_eq!(bp.player_handle, "PH");
}

#[test]
fn file_stem_keeps_inner_dots() {
    let bp = BankPath::new(&args("p/Banks/a/archive.v2.SC2Bank")).unwrap();
    assert_eq!(bp.bank_name, "archive.v2");
}

#[test]
fn missing_author_handle() {
    // No directory holds the file, so no author handle can be derived.
    match BankPath::new(&args("file.SC2Bank")) {
        Err(AppError::BankPathError(BankPathError::MissingAuthorHandle(p))) => {
            assert_eq!(p, "file.SC2Bank");
        }
        _ => panic!("expected MissingAuthorHandle"),
    }
}

#[test]
fn missing_player_handle() {
    // The path is too shallow to reach three levels above the file.
    match BankPath::new(&args("Banks/author/file.SC2Bank")) {
        Err(AppError::BankPathError(BankPathError::MissingPlayerHandle(p))) => {
            assert_eq!(p, "Banks/author/file.SC2Bank");
        }
        _ => panic!("expected MissingPlayerHandle"),
    }
}

#[test]
fn empty_path_is_invalid() {
    match BankPath::new(&args("")) {
        Err(AppError::BankPathError(BankPathError::InvalidBankFileName(p))) => {
            assert_eq!(p, "");
        }
        _ => panic!("expected InvalidBankFileName"),
    }
}

#[test]
fn doubled_separators_collapse() {
    let bp = BankPath::new(&args("player//Banks//author//file.SC2Bank")).unwrap();
    assert_eq!(bp.bank_name, "file");
    assert_eq!(bp.author_handle, "author");
    assert_eq!(bp.player_handle, "player");
}
