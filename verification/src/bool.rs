use crate::bits::{bits_value, nat_bits};
use crate::constraints::Constraints;
use crate::decode::{APerDecode, DecodeError, Decoder};
use crate::encode::{encode_int, int_bits, APerEncode, EncodeError, Encoder};
use crate::octets::bit_width;
use vstd::prelude::*;

verus! {

impl APerEncode for bool {
    /// A `BOOLEAN` takes one bit: 1 for `true`, 0 for `false`.
    open spec fn aper_bits(&self, constraints: Constraints) -> Result<Seq<bool>, EncodeError> {
        Ok(seq![*self])
    }

    open spec fn encode_constraints() -> Constraints {
        Constraints { value: None, size: None }
    }

    fn constraints() -> Constraints {
        Constraints { value: None, size: None }
    }

    fn to_aper(&self, _constraints: Constraints) -> (r: Result<Encoder, EncodeError>) {
        let digit: i64 = if *self {
            1
        } else {
            0
        };
        proof {
            reveal_with_fuel(bit_width, 2);
            reveal_with_fuel(nat_bits, 2);
            assert(int_bits(digit, Some(0i64), Some(1i64)) =~= seq![*self]);
        }
        encode_int(digit, Some(0), Some(1))
    }
}

impl APerDecode for bool {
    type Model = bool;

    open spec fn model(&self) -> bool {
        *self
    }

    /// A `BOOLEAN` takes one bit: 1 for `true`, 0 for `false`.
    open spec fn aper_parse(bits: Seq<bool>, pos: int, constraints: Constraints) -> Result<
        (bool, int),
        DecodeError,
    > {
        if pos + 1 > bits.len() {
            Err(DecodeError::NotEnoughBits)
        } else {
            Ok((bits[pos], pos + 1))
        }
    }

    open spec fn decode_constraints() -> Constraints {
        Constraints { value: None, size: None }
    }

    fn constraints() -> Constraints {
        Constraints { value: None, size: None }
    }

    /// Read a `bool` from an aligned PER encoding.
    fn from_aper(decoder: &mut Decoder<'_>, _constraints: Constraints) -> (r: Result<
        Self,
        DecodeError,
    >) {
        proof {
            decoder.lemma_pos_in_range();
            let w = decoder.bits().subrange(decoder.pos(), decoder.pos() + 1);
            reveal_with_fuel(bits_value, 2);
            if decoder.pos() + 1 <= decoder.bits().len() {
                assert(w.drop_last().len() == 0);
                assert(w.last() == decoder.bits()[decoder.pos()]);
            }
        }
        let val = decoder.read(1)?;
        Ok(val > 0)
    }
}

} // verus!
