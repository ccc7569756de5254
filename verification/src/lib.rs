//! Verified core of a bank-file re-signing tool.
//!
//! A bank file is a three-level markup document (`Section` / `Key` / typed
//! value elements).  The library parses such a document into a typed model,
//! canonicalizes the model into a deterministic payload, derives a SHA-1
//! fingerprint from it, and can splice that fingerprint back into the
//! original text in place of the declared signature.

use vstd::prelude::*;

pub mod bank_parser;
pub mod bank_path;
pub mod canon;
pub mod laws;
pub mod strutil;

verus! {

/// The inputs of one run: the bank file's path, optional overrides for the
/// identity triple, and whether a differing signature should be written
/// back.
#[derive(Debug, Clone)]
pub struct Args {
    /// Path to the bank file.
    pub bank_path: String,
    /// Real bank file name (if the one in the path was modified).
    pub bank_name: Option<String>,
    /// Author handle (if not in the path).
    pub author_handle: Option<String>,
    /// Player handle (if not in the path).
    pub player_handle: Option<String>,
    /// Whether to replace the signature in the file.
    pub write: bool,
}

pub type AppResult<T> = Result<T, AppError>;

/// Everything that can end a run early.
#[derive(Debug)]
pub enum AppError {
    XmlReaderError(xml::reader::Error),
    BankPathError(crate::bank_path::BankPathError),
    BankParseError(crate::bank_parser::BankParserError),
    SignatureNotFound,
}

} // verus!
