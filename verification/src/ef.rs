//! Export and import of Elementary Files (CKO_DATA): the command settings and
//! the decisions the commands take between their token operations.
//!
//! Elementary Files store raw provisioning assets, such as an SPX private key
//! or an ML-DSA private seed, on smart cards and HSMs. They are protected in
//! transit with RFC 5649 AES Key Wrap with Padding, built from token-backed
//! AES-CBC operations with a zero IV, so the AES wrapping key never leaves the
//! token.
use vstd::prelude::*;
use std::path::PathBuf;
use crate::envelope::ElementaryFileEnvelope;

verus! {

#[verifier::external_type_specification]
#[verifier::external_body]
pub struct ExPathBuf(std::path::PathBuf);

/// Why an export or import stopped before its token operations were done.
#[derive(Debug, PartialEq, Eq)]
pub enum EfError {
    /// No elementary file carries the requested label.
    ObjectNotFound(String),
    /// More than one elementary file carries the requested label.
    TooManyObjects(usize, String),
    /// An elementary file with the envelope's label is already on the token.
    AlreadyExists(String),
}

/// Export an Elementary File wrapped with an AES key using RFC 5649 KWP.
///
/// Reads the Elementary File from the token and wraps its data along with
/// authenticated metadata (label, application, private flag) into an
/// envelope.
#[derive(Debug)]
pub struct Export {
    /// Label of the elementary file to export.
    pub label: String,
    /// Optional application filter for the elementary file.
    pub application: Option<String>,
    /// Label or ID of the AES wrapping key.
    pub wrapping_key: String,
    /// Separate PKCS#11 module for AES wrapping.
    pub aes_module: Option<PathBuf>,
    /// User PIN for the AES module if separate.
    pub pin: Option<String>,
    /// Output file where the wrapped envelope will be saved.
    pub filename: PathBuf,
}

/// Unwrap and import an Elementary File envelope onto the token using RFC
/// 5649 KWP. Target label and metadata come from the authenticated envelope.
#[derive(Debug)]
pub struct Import {
    /// Label or ID of the AES wrapping key.
    pub wrapping_key: String,
    /// Separate PKCS#11 module for AES unwrapping.
    pub aes_module: Option<PathBuf>,
    /// User PIN for the AES module if separate.
    pub pin: Option<String>,
    /// Path to the wrapped envelope file to import.
    pub filename: PathBuf,
}

/// Export and import Elementary Files (CKO_DATA).
#[derive(Debug)]
pub enum Ef {
    /// Export an Elementary File wrapped with an AES key using RFC 5649 KWP.
    Export(Export),
    /// Unwrap and import an Elementary File envelope onto the token.
    Import(Import),
}

impl Export {
    /// Picks the one elementary file that the search for the label found.
    ///
    /// No match is `ObjectNotFound`, more than one `TooManyObjects` with
    /// their count; a single match is the file to export.
    pub fn select_file<T>(&self, matches: Vec<T>) -> (result: Result<T, EfError>)
        ensures
            matches@.len() == 0 ==> result == Err::<T, EfError>(EfError::ObjectNotFound(self.label)),
            matches@.len() > 1 ==> result == Err::<T, EfError>(
                EfError::TooManyObjects(matches@.len() as usize, self.label),
            ),
            matches@.len() == 1 ==> result == Ok::<T, EfError>(matches@[0]),
    {
        let mut matches = matches;
        if matches.len() == 0 {
            return Err(EfError::ObjectNotFound(self.label.clone()));
        } else if matches.len() > 1 {
            return Err(EfError::TooManyObjects(matches.len(), self.label.clone()));
        }
        Ok(matches.remove(0))
    }
}

impl Import {
    /// Refuses to restore an envelope whose label is already taken on the
    /// token: `exists` tells whether a file with the envelope's label (and
    /// application, where it has one) was found.
    pub fn check_target_free(envelope: &ElementaryFileEnvelope, exists: bool) -> (result: Result<
        (),
        EfError,
    >)
        ensures
            exists ==> result == Err::<(), EfError>(EfError::AlreadyExists(envelope.label)),
            !exists ==> result is Ok,
    {
        if exists {
            return Err(EfError::AlreadyExists(envelope.label.clone()));
        }
        Ok(())
    }
}

} // verus!
