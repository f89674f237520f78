//! A compact codec for ASN.1 object identifiers (OIDs).
//!
//! An OID is a hierarchical sequence of non-negative integers called arcs.
//! This crate converts between three representations: the dot-delimited
//! decimal string form, a sequence of arc values, and the BER/DER value
//! octets (tag and length excluded), held in a fixed-capacity buffer.

pub mod arcs;
pub mod asn1;
pub mod buffer;
pub mod encoder;
pub mod error;
pub mod laws;
pub mod oid;
pub mod parser;
pub mod vlq;

pub use arcs::Arc;
pub use arcs::Arcs;
pub use buffer::Buffer;
pub use buffer::MAX_SIZE;
pub use error::Error;
pub use oid::ObjectIdentifier;
pub use asn1::Asn1Parser;
