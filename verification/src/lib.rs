//! A verified Base64 codec: encoding of arbitrary byte sequences into Base64
//! text and decoding of well-formed Base64 text back into bytes, with the
//! round-trip, length and alphabet-closure guarantees proved.

pub mod base64;

pub use base64::decode;
pub use base64::decode_bytes;
pub use base64::encode;
pub use base64::encode_bytes;
pub use base64::get_n_first_bit;
pub use base64::get_n_last_bits;
pub use base64::is_valid_base64;
