//! A zero-copy decoder for ASN.1 BER/DER tag-length-value records, with a
//! base64 codec for carrying the encoded octets over text.
pub mod base64;
pub mod decoder;
pub mod length;
pub mod tag;

pub use base64::{
    decode, decode_as_vec, encode, encode_as_string, ByteWriter, CharWriter, DecodeErr,
};
pub use decoder::{DecodeError, Node, Parser, Token, Value};
pub use length::{read_len, Length, LengthErr, LengthError};
pub use tag::{decode_tag, Class, Tag, TagError, TypeId};
