//! Tools for decoding and encoding ASN.1 messages of the Aligned PER flavour
//! to and from their corresponding Rust types.
//!
//! Values are turned into bit strings by an [`Encoder`] and read back from a
//! byte buffer by a [`Decoder`]. Every executable function carries a contract
//! over the bit-level model of the module `bits`; the module `laws` states
//! what holds across them, such as that decoding inverts encoding.
//!
//! # ASN.1 Type Correspondence
//!
//! | ASN.1 Type     | Rust Type             |
//! |----------------|-----------------------|
//! | BIT STRING     | BitString             |
//! | BOOLEAN        | bool                  |
//! | INTEGER*       | i8,i16,i32,u8,u16,u32 |
//! | NULL           | ()                    |
//! | OCTET STRING   | Vec\<u8\>             |
//! | SEQUENCE       | struct                |
//! | SEQUENCE OF    | Vec\<T\>              |
//! | CHOICE         | enum                  |
//!
//! *`INTEGER` fields of other widths can be decoded and encoded as long as
//! they fit in an `i64` (see [`Decoder::decode_int`] and [`encode_int`]).

pub mod bit_string;
pub mod bits;
pub mod bool;
pub mod constraints;
pub mod decode;
pub mod encode;
pub mod integer;
pub mod laws;
pub mod null;
pub mod octets;
pub mod sequence;
pub mod sequence_of;

pub use crate::bit_string::BitString;
pub use crate::bits::shift_bytes_left;
pub use crate::constraints::{
    unconstrained, Constraint, Constraints, LENGTH_DET_FRAG, LENGTH_DET_LONG, LENGTH_DET_SHORT,
    LENGTH_MASK_LONG, LENGTH_MASK_SHORT,
};
pub use crate::decode::{APerDecode, DecodeError, Decoder};
pub use crate::encode::{encode_int, encode_length, APerEncode, EncodeError, Encoder};
pub use crate::sequence::SequencePreamble;
