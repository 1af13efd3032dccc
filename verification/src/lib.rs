//! N85, a base-85 binary-to-text codec.
//!
//! Arbitrary byte sequences are mapped to a printable-ASCII alphabet of 85
//! symbols (`'('` through `'}'`, excluding `'\\'`) and back. Every full group
//! of 4 raw bytes becomes 5 encoded symbols; a short final group of 1, 2 or 3
//! bytes becomes 2, 3 or 4 symbols. Bytes are read as little-endian block
//! values and emitted as base-85 digits, least significant first.

mod alphabet;
mod codec;
mod model;

pub use alphabet::char_of_digit;
pub use alphabet::dec;
pub use alphabet::digit_of_char;
pub use alphabet::enc;
pub use alphabet::is_valid_char;
pub use alphabet::lemma_char_round_trip;
pub use alphabet::lemma_digit_round_trip;
pub use codec::decode;
pub use codec::encode;
pub use codec::DecodeError;
pub use codec::EncodeError;
pub use model::all_valid_chars;
pub use model::decoded;
pub use model::decoded_len;
pub use model::digit_chars;
pub use model::digits_value;
pub use model::encoded;
pub use model::encoded_len;
pub use model::group_decoded;
pub use model::group_encoded;
pub use model::le_value;
pub use model::lemma_decoded_len;
pub use model::lemma_encoded_len;
pub use model::lemma_group_round_trip;
pub use model::lemma_round_trip;
pub use model::pow256;
pub use model::pow85;
