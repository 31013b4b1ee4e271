//! Schema-driven binary encoding and decoding with a fixed little-endian
//! layout.
//!
//! A record is described by a [`Schema`]: its fields in order, each with a
//! type and one resolved [`Strategy`]. The schema yields `encode_len`,
//! `encode` and `decode` for its records, proved consistent with one another.
//! The [`Encode`], [`DecodeOwned`] and [`EncDecOwned`] contracts describe
//! single values, with implementations for the fixed-width integers.
pub mod borrowed;
pub mod bytes;
pub mod codec;
pub mod collection;
pub mod error;
pub mod field;
pub mod helpers;
pub mod laws;
pub mod nested;
pub mod le;
pub mod prefixed;
pub mod primitives;
pub mod record;
pub mod repeated;
pub mod schema;
pub mod sequence;
pub mod tagged;
pub mod wire;

pub use borrowed::Borrowed;
pub use codec::MarkedBigEndian;
pub use collection::{DecodeExt, DecodeIter, EncodeExt};
pub use error::Error;
pub use prefixed::{DecodePrefixed, EncodePrefixed};
pub use primitives::IntKind;
pub use nested::Nested;
pub use record::Schema;
pub use repeated::Repeated;
pub use schema::{Field, FieldAttrs, FieldCodec, FieldType, Strategy, Value};
pub use tagged::DecodedTagged;
pub use wire::{Decode, DecodeOwned, EncDec, EncDecOwned, Encode, FixedInt};
