//! Decoding of ASN.1 values under the Basic Encoding Rules.

pub mod ber;
pub mod de;
pub mod error;
pub mod parser;
pub mod tag;
pub mod types;
