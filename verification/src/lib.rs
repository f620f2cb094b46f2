//! A CBOR (RFC 8949) wire codec, verified with Verus.
//!
//! The crate is organised in two layers.
//!
//! The wire layer works on exact byte representations: [`minor_type`] and
//! [`major_type`] model the head of a CBOR item (major type plus
//! additional-information payload), [`owned`] holds the tree of wire items
//! together with its byte encoding, [`parse`] reads items back from bytes,
//! and [`peek`] offers typed single-item readers.
//!
//! The value layer ([`value`]) holds the dynamic value model used when the
//! shape of a document is not known statically, encodes it canonically
//! (shortest heads, map keys sorted by their encoded bytes) and decodes it
//! from bytes.

pub mod de;
pub mod error;
pub mod minor_type;
pub mod major_type;
pub mod floats;
pub mod laws;
pub mod owned;
pub mod parse;
pub mod peek;
pub mod utf8check;
pub mod value;
pub mod write;

pub use de::{decode_all, decode_all_values, Deserializer, StreamDecoder};
pub use error::Error;
pub use owned::OwnedValue;
pub use value::{from_slice, to_vec, to_vec_sd, ObjectKey, Value};
