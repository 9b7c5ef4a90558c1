//! Canonical bencode serialization for a restricted structured-value model.
//!
//! Values (integers, byte strings, lists, records with named fields) are
//! mapped onto the bencode token grammar: integer literals `i..e`,
//! length-prefixed byte strings, and `l..e` / `d..e` containers. The encoding
//! is canonical: record fields are emitted in strictly increasing byte order
//! of their names, so equal logical values always yield identical bytes.

mod decoder;
mod encoder;
mod laws;
mod ser;
mod token;
mod value;

pub use decoder::Decoder;
pub use laws::lemma_adjacent_field_swap;
pub use laws::lemma_bytes_round_trip;
pub use laws::lemma_depth_budget_exact;
pub use laws::lemma_int_round_trip;
pub use laws::lemma_record_keys_sorted;
pub use laws::lemma_serialization_deterministic;
pub use laws::lemma_two_field_order_irrelevant;
pub use laws::lemma_unrepresentable_fails;
pub use ser::to_bytes;
pub use ser::Serializer;
pub use ser::StructSerializer;

pub use encoder::Encoder;
pub use encoder::DEFAULT_MAX_DEPTH;
pub use token::Error;
pub use token::IntValue;
pub use token::Token;
pub use token::TokenModel;
pub use value::Shape;
pub use value::Value;
pub use value::ValueModel;
