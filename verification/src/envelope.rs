//! The elementary-file envelope: the file's metadata and its Base64-encoded
//! contents, which travel together inside the wrapped payload.
use vstd::prelude::*;
use base64ct::{Base64, Encoding};

verus! {

#[verifier::external_type_specification]
#[verifier::external_body]
pub struct ExBase64Error(base64ct::Error);

/// The character of the standard Base64 alphabet (RFC 4648, Table 1) for a
/// 6-bit value.
pub open spec fn base64_char(v: int) -> char {
    if v < 26 {
        (65 + v) as char
    } else if v < 52 {
        (97 + v - 26) as char
    } else if v < 62 {
        (48 + v - 52) as char
    } else if v == 62 {
        '+'
    } else {
        '/'
    }
}

/// The standard padded Base64 text of `raw` (RFC 4648, Section 4): every
/// group of three octets gives four characters, and a final group of one or
/// two octets is completed with `=`.
pub open spec fn base64_text(raw: Seq<u8>) -> Seq<char>
    decreases raw.len(),
{
    if raw.len() == 0 {
        seq![]
    } else if raw.len() == 1 {
        let a = raw[0] as int;
        seq![base64_char(a / 4), base64_char((a % 4) * 16), '=', '=']
    } else if raw.len() == 2 {
        let a = raw[0] as int;
        let b = raw[1] as int;
        seq![base64_char(a / 4), base64_char((a % 4) * 16 + b / 16), base64_char((b % 16) * 4), '=']
    } else {
        let a = raw[0] as int;
        let b = raw[1] as int;
        let c = raw[2] as int;
        seq![
            base64_char(a / 4),
            base64_char((a % 4) * 16 + b / 16),
            base64_char((b % 16) * 4 + c / 64),
            base64_char(c % 64),
        ] + base64_text(raw.skip(3))
    }
}

/// The bytes that `base64ct::Base64::decode_vec` recovers from `text`, or
/// `None` where it rejects the text.
pub uninterp spec fn base64_bytes(text: Seq<char>) -> Option<Seq<u8>>;

/// Calls `base64ct::Base64::encode_string`.
///
/// Claims that the result is the padded Base64 text of the input, and that
/// decoding it gives the input back. The function panics
/// when four times the input length overflows `usize`, which `requires`
/// leaves out.
#[verifier::external_body]
fn base64_encode(raw: &[u8]) -> (text: String)
    requires
        raw@.len() <= usize::MAX / 4,
    ensures
        text@ == base64_text(raw@),
        base64_bytes(text@) == Some(raw@),
{
    Base64::encode_string(raw)
}

/// Calls `base64ct::Base64::decode_vec`.
///
/// Claims that the result is the decoding named by `base64_bytes`. Which of
/// the crate's two error values a rejected text gives is left unsaid.
#[verifier::external_body]
fn base64_decode(text: &str) -> (result: Result<Vec<u8>, base64ct::Error>)
    ensures
        result is Ok <==> base64_bytes(text@) is Some,
        result matches Ok(v) ==> base64_bytes(text@) == Some(v@),
{
    Base64::decode_vec(text)
}

/// Why the contents of an envelope could not be read.
#[derive(Debug, PartialEq, Eq)]
pub enum EnvelopeError {
    /// The contents are not valid padded Base64.
    InvalidBase64(base64ct::Error),
}

/// Default setting for private elementary files.
pub fn default_private() -> (private: bool)
    ensures
        private,
{
    true
}

/// Structured envelope for elementary file export and import.
///
/// Encapsulates the elementary file's metadata along with base64-encoded raw
/// contents. The whole serialised envelope is wrapped via KWP, which
/// authenticates the metadata fields against tampering.
#[derive(Clone, Debug, PartialEq, Eq)]
pub struct ElementaryFileEnvelope {
    pub label: String,
    pub application: Option<String>,
    pub private: bool,
    pub contents: String,
}

impl ElementaryFileEnvelope {
    /// Create a new envelope from metadata and raw byte contents.
    pub fn new(label: String, application: Option<String>, private: bool, raw_contents: &[u8]) -> (envelope: Self)
        requires
            raw_contents@.len() <= usize::MAX / 4,
        ensures
            envelope.label == label,
            envelope.application == application,
            envelope.private == private,
            envelope.contents@ == base64_text(raw_contents@),
            base64_bytes(envelope.contents@) == Some(raw_contents@),
    {
        ElementaryFileEnvelope {
            label,
            application,
            private,
            contents: base64_encode(raw_contents),
        }
    }

    /// Decode the base64 contents into raw bytes.
    ///
    /// Contents made by [`ElementaryFileEnvelope::new`] decode to the bytes
    /// they were made from.
    pub fn decode_contents(&self) -> (result: Result<Vec<u8>, EnvelopeError>)
        ensures
            result is Ok <==> base64_bytes(self.contents@) is Some,
            result matches Ok(raw) ==> base64_bytes(self.contents@) == Some(raw@),
    {
        match base64_decode(self.contents.as_str()) {
            Ok(raw) => Ok(raw),
            Err(e) => Err(EnvelopeError::InvalidBase64(e)),
        }
    }
}

} // verus!
