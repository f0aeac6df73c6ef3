//! Key Wrap with Padding (RFC 5649) over a caller-supplied AES block
//! function, the elementary-file envelope that carries wrapped data, and the
//! PKCS#11-backed block functions that drive the wrap on a token.

pub mod ef;
pub mod envelope;
pub mod kwp;
pub mod kwp_spec;
pub mod kwp_lemmas;
pub mod kwp_laws;
pub mod session;
