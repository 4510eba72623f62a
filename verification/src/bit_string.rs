use crate::bits::{
    bit_of, bits_of, bits_of_byte, bits_value, lemma_bit_zero, lemma_byte_digits,
    lemma_nat_bits_bits_value, shift_bytes_left, shift_left_bits, zero_bits,
};
use crate::constraints::{Constraint, Constraints};
use crate::decode::{
    bytes_read, lemma_bytes_read_bits, parse_length, span_read, APerDecode, DecodeError, Decoder,
};
use crate::encode::{encode_length, length_bits, APerEncode, EncodeError, Encoder};
use crate::octets::{lemma_nat_bits_widen, lemma_pow2_le};
use vstd::arithmetic::power2::lemma2_to64;
use vstd::prelude::*;

verus! {

/// A string of bits with an explicit length. It is held as a number: bit 0
/// is the lowest bit of the last byte, and the bits of the first byte above
/// the length are not part of the string.
#[derive(Debug)]
pub struct BitString {
    data: Vec<u8>,
    num_bits: usize,
}

/// Bit `i` of the number that `data` spells, bit 0 being the lowest.
pub open spec fn number_bit(data: Seq<u8>, i: int) -> bool {
    bits_of(data)[8 * data.len() - 1 - i]
}

/// The `k` lowest bits of the number that `data` spells, highest first: what
/// goes over the wire for a bit string of `k` bits.
pub open spec fn wire_bits(data: Seq<u8>, k: nat) -> Seq<bool> {
    Seq::new(k, |j: int| bits_of(data)[8 * data.len() - k + j])
}

/// The number of bits that a size constraint fixes for a bit string: its
/// upper bound, where the lower bound is absent or the same.
pub open spec fn fixed_bits(size: Constraint) -> Option<int> {
    match size.max() {
        None => None,
        Some(hi) => match size.min() {
            None => Some(hi as int),
            Some(lo) => if lo == hi {
                Some(hi as int)
            } else {
                None
            },
        },
    }
}

/// The bits of the bytes that hold a bit string of `k` bits decoded at bit
/// `pos` of `bits`. Fewer than eight bits stand at the low end of one byte.
/// From eight bits on, the whole bytes that were read are moved left by the
/// number of bits by which they reach beyond the string.
pub open spec fn stored_bits(bits: Seq<bool>, pos: int, k: nat) -> Seq<bool> {
    if k < 8 {
        zero_bits(8 - k) + bits.subrange(pos, pos + k)
    } else {
        shift_left_bits(bits.subrange(pos, pos + span_read(k)), span_read(k) - k)
    }
}

/// What a bit string of `k` bits at bit `pos` of `bits` decodes to.
pub open spec fn string_at(bits: Seq<bool>, pos: int, k: nat) -> Result<
    (Seq<bool>, int),
    DecodeError,
> {
    if pos + span_read(k) > bits.len() {
        Err(DecodeError::NotEnoughBits)
    } else if k == 0 {
        Ok((Seq::empty(), pos))
    } else {
        let stored = stored_bits(bits, pos, k);
        Ok((Seq::new(k, |i: int| stored[stored.len() - 1 - i]), pos + k))
    }
}

/// Setting, clearing and testing the bit `p` places above the lowest.
proof fn lemma_bit_mask(b: u8, p: u8, j: u8)
    by (bit_vector)
    requires
        p < 8,
        j < 8,
    ensures
        bit_of(b | (1u8 << p), j as int) == (j == 7 - p || bit_of(b, j as int)),
        bit_of(b & !(1u8 << p), j as int) == (j != 7 - p && bit_of(b, j as int)),
        bit_of(b, (7 - p) as int) == ((b >> p) & 1 == 1),
{
}

impl BitString {
    #[verifier::type_invariant]
    spec fn inv(self) -> bool {
        self.data@.len() == (self.num_bits + 7) / 8
    }

    /// The bytes that hold the bits, in contracts.
    pub closed spec fn spec_data(&self) -> Seq<u8> {
        self.data@
    }

    /// The number of bits, in contracts.
    pub closed spec fn spec_len(&self) -> nat {
        self.num_bits as nat
    }

    /// The bits of the string, bit 0 first.
    pub open spec fn view(&self) -> Seq<bool> {
        Seq::new(self.spec_len(), |i: int| number_bit(self.spec_data(), i))
    }

    /// Construct a `BitString` of `len` bits, all of them clear.
    pub fn with_len(len: usize) -> (s: BitString)
        ensures
            s.spec_len() == len,
            s.spec_data().len() == (len + 7) / 8,
            forall|i: int| 0 <= i < 8 * s.spec_data().len() ==> !number_bit(s.spec_data(), i),
    {
        let n = len / 8 + if len % 8 != 0 {
            1
        } else {
            0
        };
        let data: Vec<u8> = vec![0u8; n];
        proof {
            assert forall|i: int| 0 <= i < 8 * data@.len() implies !number_bit(data@, i) by {
                let p = 8 * data@.len() - 1 - i;
                assert(data@[p / 8] == 0u8);
                lemma_bit_zero((p % 8) as u8);
            }
        }
        BitString { data, num_bits: len }
    }

    /// Construct a `BitString` of `len` bits from the bytes that hold them:
    /// as many bytes as `len` bits need, the bits at their low end.
    pub fn with_bytes_and_len(data: &Vec<u8>, len: usize) -> (s: BitString)
        requires
            data@.len() == (len + 7) / 8,
        ensures
            s.spec_len() == len,
            s.spec_data() == data@,
    {
        let bytes = data.clone();
        assert(bytes@ == data@);
        BitString { data: bytes, num_bits: len }
    }

    /// Whether bit `i` is set.
    pub fn is_set(&self, i: usize) -> (r: bool)
        requires
            i < 8 * self.spec_data().len(),
        ensures
            r == number_bit(self.spec_data(), i as int),
    {
        let bucket = self.data.len() - 1 - i / 8;
        let pos = (i % 8) as u8;
        let b: u8 = self.data[bucket];
        proof {
            lemma_bit_mask(b, pos, 0);
            let p = 8 * self.data@.len() - 1 - i;
            assert(p / 8 == bucket as int);
            assert(p % 8 == 7 - pos);
        }
        (b >> pos) & 1 == 1
    }

    /// Set or clear bit `i`.
    pub fn set(&mut self, i: usize, val: bool)
        requires
            i < 8 * old(self).spec_data().len(),
        ensures
            final(self).spec_len() == old(self).spec_len(),
            final(self).spec_data().len() == old(self).spec_data().len(),
            forall|j: int|
                0 <= j < 8 * old(self).spec_data().len() ==> number_bit(final(self).spec_data(), j)
                    == if j == i {
                    val
                } else {
                    number_bit(old(self).spec_data(), j)
                },
    {
        proof {
            use_type_invariant(&*self);
        }
        let bucket = self.data.len() - 1 - i / 8;
        let pos = (i % 8) as u8;
        let b: u8 = self.data[bucket];
        let updated: u8 = if val {
            b | (1u8 << pos)
        } else {
            b & !(1u8 << pos)
        };
        self.data[bucket] = updated;
        proof {
            let n = self.data@.len() as int;
            assert forall|j: int| 0 <= j < 8 * n implies number_bit(self.data@, j) == if j == i {
                val
            } else {
                number_bit(old(self).data@, j)
            } by {
                let p = 8 * n - 1 - j;
                if p / 8 == bucket {
                    lemma_bit_mask(b, pos, (p % 8) as u8);
                }
            }
        }
    }
}

impl APerEncode for BitString {
    /// A `BIT STRING` needs a size constraint. Its bits go over the wire from
    /// the highest to bit 0, with no padding in front. Where the constraint
    /// does not fix their number, the number stands before them as a length
    /// determinant.
    open spec fn aper_bits(&self, constraints: Constraints) -> Result<Seq<bool>, EncodeError> {
        match constraints.size {
            None => Err(EncodeError::MissingSizeConstraint),
            Some(size) => {
                let wire = wire_bits(self.spec_data(), self.spec_len());
                if fixed_bits(size) is Some {
                    Ok(wire)
                } else if self.spec_len() >= 16384 {
                    Err(EncodeError::NotImplemented)
                } else {
                    Ok(length_bits(self.spec_len()) + wire)
                }
            },
        }
    }

    open spec fn encode_constraints() -> Constraints {
        Constraints { value: None, size: None }
    }

    fn constraints() -> Constraints {
        Constraints { value: None, size: None }
    }

    fn to_aper(&self, constraints: Constraints) -> (r: Result<Encoder, EncodeError>) {
        proof {
            use_type_invariant(self);
        }
        let size = match constraints.size {
            None => {
                return Err(EncodeError::MissingSizeConstraint);
            },
            Some(c) => c,
        };
        let fixed = match size.max() {
            None => false,
            Some(hi) => match size.min() {
                None => true,
                Some(lo) => lo == hi,
            },
        };
        let pad = (8 - self.num_bits % 8) % 8;
        let mut bytes = self.data.clone();
        assert(bytes@ == self.data@);
        shift_bytes_left(&mut bytes, pad);
        let body = Encoder::with_bytes_and_padding(bytes, pad);
        proof {
            let wire = wire_bits(self.data@, self.num_bits as nat);
            assert(body.bits() =~= wire);
        }
        if fixed {
            Ok(body)
        } else {
            let mut enc = encode_length(self.num_bits)?;
            assert(enc.bits() =~= length_bits(self.num_bits as nat));
            enc.append(&body);
            Ok(enc)
        }
    }
}

impl APerDecode for BitString {
    type Model = Seq<bool>;

    open spec fn model(&self) -> Seq<bool> {
        self.view()
    }

    /// A `BIT STRING` needs a size constraint. Where the constraint fixes
    /// the number of bits, so many are decoded; else their number is decoded
    /// first, as a length determinant.
    open spec fn aper_parse(bits: Seq<bool>, pos: int, constraints: Constraints) -> Result<
        (Seq<bool>, int),
        DecodeError,
    > {
        match constraints.size {
            None => Err(DecodeError::MissingSizeConstraint),
            Some(size) => match fixed_bits(size) {
                Some(k) => {
                    if k < 0 {
                        Err(DecodeError::NotImplemented)
                    } else {
                        string_at(bits, pos, k as nat)
                    }
                },
                None => match parse_length(bits, pos) {
                    Err(e) => Err(e),
                    Ok((k, start)) => string_at(bits, start, k),
                },
            },
        }
    }

    open spec fn decode_constraints() -> Constraints {
        Constraints { value: None, size: None }
    }

    fn constraints() -> Constraints {
        Constraints { value: None, size: None }
    }

    /// Read a `BitString` from an aligned PER encoding.
    fn from_aper(decoder: &mut Decoder<'_>, constraints: Constraints) -> (r: Result<
        Self,
        DecodeError,
    >) {
        let size = match constraints.size {
            None => {
                return Err(DecodeError::MissingSizeConstraint);
            },
            Some(c) => c,
        };
        let fixed: Option<i64> = match size.max() {
            None => None,
            Some(hi) => match size.min() {
                None => Some(hi),
                Some(lo) => if lo == hi {
                    Some(hi)
                } else {
                    None
                },
            },
        };
        proof {
            decoder.lemma_pos_in_range();
        }
        let len: usize = match fixed {
            Some(k) => {
                if k < 0 {
                    return Err(DecodeError::NotImplemented);
                }
                if k as u64 > usize::MAX as u64 {
                    return Err(DecodeError::NotEnoughBits);
                }
                k as usize
            },
            None => decoder.decode_length()?,
        };
        let ghost bits = decoder.bits();
        let ghost start = decoder.pos();
        proof {
            decoder.lemma_pos_in_range();
        }
        let mut content: Vec<u8> = Vec::new();
        decoder.read_to_vec(&mut content, len)?;
        assert(content@ =~= bytes_read(bits, start, len as nat));
        if len >= 8 {
            let pad = content.len() * 8 - len;
            proof {
                lemma_bytes_read_bits(bits, start, content@.len());
            }
            shift_bytes_left(&mut content, pad);
        } else if len > 0 {
            proof {
                let w = bits.subrange(start, start + len);
                lemma2_to64();
                lemma_nat_bits_bits_value(w);
                lemma_pow2_le(len as nat, 8);
                lemma_byte_digits(content@[0]);
                lemma_nat_bits_widen(bits_value(w), len as nat, (8 - len) as nat);
                assert(bits_of(content@) =~= bits_of_byte(content@[0]));
            }
        }
        let s = BitString { data: content, num_bits: len };
        proof {
            if len > 0 {
                let stored = stored_bits(bits, start, len as nat);
                assert(bits_of(s.data@) == stored);
                assert(s.view() =~= Seq::new(len as nat, |i: int| stored[stored.len() - 1 - i]));
            } else {
                assert(s.view() =~= Seq::<bool>::empty());
            }
        }
        Ok(s)
    }
}

} // verus!
