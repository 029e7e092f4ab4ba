//! Codec and framed-transport support for the Sigma wire protocol: a
//! length-prefixed, tag-encoded binary message format for authorization
//! requests and responses.

pub mod bcd;
pub mod bytebuf;
pub mod codec;
pub mod digits;
pub mod error;
pub mod field;
pub mod frame;
pub mod json;
pub mod map;
pub mod payload;
pub mod request;
pub mod response;
pub mod tag;
pub mod text;
pub mod validate;

pub use bcd::decode_bcd_x2;
pub use bcd::decode_bcd_x4;
pub use bcd::encode_bcd_x2;
pub use bcd::encode_bcd_x4;
pub use codec::ClientProtocolError;
pub use codec::SigmaClientProtocol;
pub use codec::LENGTH_BYTES_COUNT;
pub use error::Error;
pub use field::decode_field_from_cursor;
pub use field::encode_field_to_buf;
pub use json::gen_random_auth_serno;
pub use json::JsonVal;
pub use map::OrderedMap;
pub use payload::IsoFieldData;
pub use request::SigmaRequest;
pub use response::FeeData;
pub use response::SigmaResponse;
pub use tag::Tag;
pub use validate::validate_mti;
pub use validate::validate_saf;
pub use validate::validate_source;
