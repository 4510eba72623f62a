use crate::constraints::Constraints;
use crate::decode::{APerDecode, DecodeError, Decoder};
use crate::encode::{APerEncode, EncodeError, Encoder};
use vstd::prelude::*;

verus! {

impl APerEncode for () {
    /// `NULL` takes no bits.
    open spec fn aper_bits(&self, constraints: Constraints) -> Result<Seq<bool>, EncodeError> {
        Ok(Seq::empty())
    }

    open spec fn encode_constraints() -> Constraints {
        Constraints { value: None, size: None }
    }

    fn constraints() -> Constraints {
        Constraints { value: None, size: None }
    }

    fn to_aper(&self, _constraints: Constraints) -> (r: Result<Encoder, EncodeError>) {
        Ok(Encoder::new())
    }
}

impl APerDecode for () {
    type Model = ();

    open spec fn model(&self) -> () {
        ()
    }

    /// `NULL` takes no bits.
    open spec fn aper_parse(bits: Seq<bool>, pos: int, constraints: Constraints) -> Result<
        ((), int),
        DecodeError,
    > {
        Ok(((), pos))
    }

    open spec fn decode_constraints() -> Constraints {
        Constraints { value: None, size: None }
    }

    fn constraints() -> Constraints {
        Constraints { value: None, size: None }
    }

    /// Read `()` from an aligned PER encoding.
    fn from_aper(_decoder: &mut Decoder<'_>, _constraints: Constraints) -> (r: Result<
        Self,
        DecodeError,
    >) {
        Ok(())
    }
}

} // verus!
