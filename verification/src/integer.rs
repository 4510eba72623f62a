use crate::constraints::Constraints;
use crate::decode::{parse_int, APerDecode, DecodeError, Decoder};
use crate::encode::{encode_int, int_bits, APerEncode, EncodeError, Encoder};
use vstd::prelude::*;

verus! {

impl APerEncode for i8 {
    /// An `i8` is encoded as a whole number between `i8::MIN` and `i8::MAX`.
    open spec fn aper_bits(&self, constraints: Constraints) -> Result<Seq<bool>, EncodeError> {
        Ok(int_bits(*self as i64, Some(i8::MIN as i64), Some(i8::MAX as i64)))
    }

    open spec fn encode_constraints() -> Constraints {
        Constraints { value: None, size: None }
    }

    fn constraints() -> Constraints {
        Constraints { value: None, size: None }
    }

    fn to_aper(&self, _constraints: Constraints) -> (r: Result<Encoder, EncodeError>) {
        encode_int(*self as i64, Some(i8::MIN as i64), Some(i8::MAX as i64))
    }
}

impl APerDecode for i8 {
    type Model = i8;

    open spec fn model(&self) -> i8 {
        *self
    }

    /// An `i8` is decoded as a whole number between `i8::MIN` and `i8::MAX`.
    open spec fn aper_parse(bits: Seq<bool>, pos: int, constraints: Constraints) -> Result<
        (i8, int),
        DecodeError,
    > {
        match parse_int(bits, pos, Some(i8::MIN as i64), Some(i8::MAX as i64)) {
            Ok((v, next)) => Ok((v as i8, next)),
            Err(e) => Err(e),
        }
    }

    open spec fn decode_constraints() -> Constraints {
        Constraints { value: None, size: None }
    }

    fn constraints() -> Constraints {
        Constraints { value: None, size: None }
    }

    /// Read an `i8` from an aligned PER encoding.
    fn from_aper(decoder: &mut Decoder<'_>, _constraints: Constraints) -> (r: Result<
        Self,
        DecodeError,
    >) {
        let val = decoder.decode_int(Some(i8::MIN as i64), Some(i8::MAX as i64))?;
        Ok(val as i8)
    }
}

impl APerEncode for i16 {
    /// An `i16` is encoded as a whole number between `i16::MIN` and `i16::MAX`.
    open spec fn aper_bits(&self, constraints: Constraints) -> Result<Seq<bool>, EncodeError> {
        Ok(int_bits(*self as i64, Some(i16::MIN as i64), Some(i16::MAX as i64)))
    }

    open spec fn encode_constraints() -> Constraints {
        Constraints { value: None, size: None }
    }

    fn constraints() -> Constraints {
        Constraints { value: None, size: None }
    }

    fn to_aper(&self, _constraints: Constraints) -> (r: Result<Encoder, EncodeError>) {
        encode_int(*self as i64, Some(i16::MIN as i64), Some(i16::MAX as i64))
    }
}

impl APerDecode for i16 {
    type Model = i16;

    open spec fn model(&self) -> i16 {
        *self
    }

    /// An `i16` is decoded as a whole number between `i16::MIN` and `i16::MAX`.
    open spec fn aper_parse(bits: Seq<bool>, pos: int, constraints: Constraints) -> Result<
        (i16, int),
        DecodeError,
    > {
        match parse_int(bits, pos, Some(i16::MIN as i64), Some(i16::MAX as i64)) {
            Ok((v, next)) => Ok((v as i16, next)),
            Err(e) => Err(e),
        }
    }

    open spec fn decode_constraints() -> Constraints {
        Constraints { value: None, size: None }
    }

    fn constraints() -> Constraints {
        Constraints { value: None, size: None }
    }

    /// Read an `i16` from an aligned PER encoding.
    fn from_aper(decoder: &mut Decoder<'_>, _constraints: Constraints) -> (r: Result<
        Self,
        DecodeError,
    >) {
        let val = decoder.decode_int(Some(i16::MIN as i64), Some(i16::MAX as i64))?;
        Ok(val as i16)
    }
}

impl APerEncode for i32 {
    /// An `i32` is encoded as a whole number between `i32::MIN` and `i32::MAX`.
    open spec fn aper_bits(&self, constraints: Constraints) -> Result<Seq<bool>, EncodeError> {
        Ok(int_bits(*self as i64, Some(i32::MIN as i64), Some(i32::MAX as i64)))
    }

    open spec fn encode_constraints() -> Constraints {
        Constraints { value: None, size: None }
    }

    fn constraints() -> Constraints {
        Constraints { value: None, size: None }
    }

    fn to_aper(&self, _constraints: Constraints) -> (r: Result<Encoder, EncodeError>) {
        encode_int(*self as i64, Some(i32::MIN as i64), Some(i32::MAX as i64))
    }
}

impl APerDecode for i32 {
    type Model = i32;

    open spec fn model(&self) -> i32 {
        *self
    }

    /// An `i32` is decoded as a whole number between `i32::MIN` and `i32::MAX`.
    open spec fn aper_parse(bits: Seq<bool>, pos: int, constraints: Constraints) -> Result<
        (i32, int),
        DecodeError,
    > {
        match parse_int(bits, pos, Some(i32::MIN as i64), Some(i32::MAX as i64)) {
            Ok((v, next)) => Ok((v as i32, next)),
            Err(e) => Err(e),
        }
    }

    open spec fn decode_constraints() -> Constraints {
        Constraints { value: None, size: None }
    }

    fn constraints() -> Constraints {
        Constraints { value: None, size: None }
    }

    /// Read an `i32` from an aligned PER encoding.
    fn from_aper(decoder: &mut Decoder<'_>, _constraints: Constraints) -> (r: Result<
        Self,
        DecodeError,
    >) {
        let val = decoder.decode_int(Some(i32::MIN as i64), Some(i32::MAX as i64))?;
        Ok(val as i32)
    }
}

impl APerEncode for u8 {
    /// An `u8` is encoded as a whole number between `u8::MIN` and `u8::MAX`.
    open spec fn aper_bits(&self, constraints: Constraints) -> Result<Seq<bool>, EncodeError> {
        Ok(int_bits(*self as i64, Some(u8::MIN as i64), Some(u8::MAX as i64)))
    }

    open spec fn encode_constraints() -> Constraints {
        Constraints { value: None, size: None }
    }

    fn constraints() -> Constraints {
        Constraints { value: None, size: None }
    }

    fn to_aper(&self, _constraints: Constraints) -> (r: Result<Encoder, EncodeError>) {
        encode_int(*self as i64, Some(u8::MIN as i64), Some(u8::MAX as i64))
    }
}

impl APerDecode for u8 {
    type Model = u8;

    open spec fn model(&self) -> u8 {
        *self
    }

    /// An `u8` is decoded as a whole number between `u8::MIN` and `u8::MAX`.
    open spec fn aper_parse(bits: Seq<bool>, pos: int, constraints: Constraints) -> Result<
        (u8, int),
        DecodeError,
    > {
        match parse_int(bits, pos, Some(u8::MIN as i64), Some(u8::MAX as i64)) {
            Ok((v, next)) => Ok((v as u8, next)),
            Err(e) => Err(e),
        }
    }

    open spec fn decode_constraints() -> Constraints {
        Constraints { value: None, size: None }
    }

    fn constraints() -> Constraints {
        Constraints { value: None, size: None }
    }

    /// Read an `u8` from an aligned PER encoding.
    fn from_aper(decoder: &mut Decoder<'_>, _constraints: Constraints) -> (r: Result<
        Self,
        DecodeError,
    >) {
        let val = decoder.decode_int(Some(u8::MIN as i64), Some(u8::MAX as i64))?;
        Ok(val as u8)
    }
}

impl APerEncode for u16 {
    /// An `u16` is encoded as a whole number between `u16::MIN` and `u16::MAX`.
    open spec fn aper_bits(&self, constraints: Constraints) -> Result<Seq<bool>, EncodeError> {
        Ok(int_bits(*self as i64, Some(u16::MIN as i64), Some(u16::MAX as i64)))
    }

    open spec fn encode_constraints() -> Constraints {
        Constraints { value: None, size: None }
    }

    fn constraints() -> Constraints {
        Constraints { value: None, size: None }
    }

    fn to_aper(&self, _constraints: Constraints) -> (r: Result<Encoder, EncodeError>) {
        encode_int(*self as i64, Some(u16::MIN as i64), Some(u16::MAX as i64))
    }
}

impl APerDecode for u16 {
    type Model = u16;

    open spec fn model(&self) -> u16 {
        *self
    }

    /// An `u16` is decoded as a whole number between `u16::MIN` and `u16::MAX`.
    open spec fn aper_parse(bits: Seq<bool>, pos: int, constraints: Constraints) -> Result<
        (u16, int),
        DecodeError,
    > {
        match parse_int(bits, pos, Some(u16::MIN as i64), Some(u16::MAX as i64)) {
            Ok((v, next)) => Ok((v as u16, next)),
            Err(e) => Err(e),
        }
    }

    open spec fn decode_constraints() -> Constraints {
        Constraints { value: None, size: None }
    }

    fn constraints() -> Constraints {
        Constraints { value: None, size: None }
    }

    /// Read an `u16` from an aligned PER encoding.
    fn from_aper(decoder: &mut Decoder<'_>, _constraints: Constraints) -> (r: Result<
        Self,
        DecodeError,
    >) {
        let val = decoder.decode_int(Some(u16::MIN as i64), Some(u16::MAX as i64))?;
        Ok(val as u16)
    }
}

impl APerEncode for u32 {
    /// An `u32` is encoded as a whole number between `u32::MIN` and `u32::MAX`.
    open spec fn aper_bits(&self, constraints: Constraints) -> Result<Seq<bool>, EncodeError> {
        Ok(int_bits(*self as i64, Some(u32::MIN as i64), Some(u32::MAX as i64)))
    }

    open spec fn encode_constraints() -> Constraints {
        Constraints { value: None, size: None }
    }

    fn constraints() -> Constraints {
        Constraints { value: None, size: None }
    }

    fn to_aper(&self, _constraints: Constraints) -> (r: Result<Encoder, EncodeError>) {
        encode_int(*self as i64, Some(u32::MIN as i64), Some(u32::MAX as i64))
    }
}

impl APerDecode for u32 {
    type Model = u32;

    open spec fn model(&self) -> u32 {
        *self
    }

    /// An `u32` is decoded as a whole number between `u32::MIN` and `u32::MAX`.
    open spec fn aper_parse(bits: Seq<bool>, pos: int, constraints: Constraints) -> Result<
        (u32, int),
        DecodeError,
    > {
        match parse_int(bits, pos, Some(u32::MIN as i64), Some(u32::MAX as i64)) {
            Ok((v, next)) => Ok((v as u32, next)),
            Err(e) => Err(e),
        }
    }

    open spec fn decode_constraints() -> Constraints {
        Constraints { value: None, size: None }
    }

    fn constraints() -> Constraints {
        Constraints { value: None, size: None }
    }

    /// Read an `u32` from an aligned PER encoding.
    fn from_aper(decoder: &mut Decoder<'_>, _constraints: Constraints) -> (r: Result<
        Self,
        DecodeError,
    >) {
        let val = decoder.decode_int(Some(u32::MIN as i64), Some(u32::MAX as i64))?;
        Ok(val as u32)
    }
}

} // verus!
