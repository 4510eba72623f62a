use crate::bits::{
    bit_of, bits_of, bits_of_byte, bits_value, lemma_bit_and, lemma_bit_low_mask, lemma_bit_or,
    lemma_bit_shl, lemma_bit_shr, lemma_bits_value_concat, lemma_bits_value_head,
    lemma_bits_value_zero_prefix, lemma_byte_digits, lemma_nat_bits_bits_value, zero_bits,
};
use crate::constraints::{Constraints, LENGTH_MASK_LONG, LENGTH_MASK_SHORT};
use crate::octets::{
    be_value, bit_width, lemma_be_value_bits, read_int_be, read_uint_be, twos_value, width_of,
};
use vstd::arithmetic::power2::lemma2_to64;
use vstd::prelude::*;

verus! {

/// Trait for Aligned PER decoding.
///
/// A structure decodes its fields from the cursor in the order of their
/// declaration. A choice decodes an extension marker bit, then the index of
/// the alternative with `Decoder::decode_int` over the range of the indices,
/// then that alternative; an index without an alternative is
/// `DecodeError::InvalidChoice`.
///
/// # Examples
///
/// A struct for the ASN.1 sequence
/// `SEQUENCE { bar BIT STRING(SIZE(4)), baz INTEGER(0..65535) }`:
///
/// ```
/// use asn1_aper::{
///     unconstrained, APerDecode, BitString, Constraint, Constraints, DecodeError, Decoder,
/// };
///
/// struct Foo {
///     bar: BitString,
///     baz: u16,
/// }
///
/// impl APerDecode for Foo {
///     type Model = ();
///
///     fn constraints() -> Constraints {
///         unconstrained()
///     }
///
///     fn from_aper(decoder: &mut Decoder<'_>, _: Constraints) -> Result<Self, DecodeError> {
///         let bar = BitString::from_aper(
///             decoder,
///             Constraints { value: None, size: Some(Constraint::new(Some(4), Some(4))) },
///         )?;
///         let baz = u16::from_aper(decoder, unconstrained())?;
///         Ok(Foo { bar, baz })
///     }
/// }
/// ```
pub trait APerDecode: Sized {
    /// What a value of the type stands for in contracts.
    type Model;

    /// What this value stands for.
    open spec fn model(&self) -> Self::Model {
        arbitrary()
    }

    /// What a value of the type at bit `pos` of `bits` decodes to under
    /// `constraints`: the value and the position of the bit after it, or the
    /// reason why there is no value. An implementation states it here: left
    /// as it is, it is unknown, and no `from_aper` can be shown to meet it.
    open spec fn aper_parse(bits: Seq<bool>, pos: int, constraints: Constraints) -> Result<
        (Self::Model, int),
        DecodeError,
    > {
        arbitrary()
    }

    /// The PER-visible constraints of the type, in contracts.
    open spec fn decode_constraints() -> Constraints {
        arbitrary()
    }

    /// PER-visible constraints of the type.
    fn constraints() -> (c: Constraints)
        ensures
            c == Self::decode_constraints(),
    ;

    /// Read a value from the cursor. On success the cursor has advanced by
    /// the bits that the value took; on failure its position is not
    /// specified.
    fn from_aper(decoder: &mut Decoder<'_>, constraints: Constraints) -> (r: Result<
        Self,
        DecodeError,
    >)
        requires
            old(decoder).wf(),
        ensures
            final(decoder).wf(),
            final(decoder).data() == old(decoder).data(),
            match r {
                Ok(v) => Self::aper_parse(old(decoder).bits(), old(decoder).pos(), constraints)
                    == Ok::<(Self::Model, int), DecodeError>((v.model(), final(decoder).pos())),
                Err(e) => Self::aper_parse(old(decoder).bits(), old(decoder).pos(), constraints)
                    == Err::<(Self::Model, int), DecodeError>(e),
            },
    ;
}

/// Why a value could not be decoded.
#[derive(Debug, PartialEq, Eq, Structural)]
pub enum DecodeError {
    InvalidChoice,
    MalformedLength,
    MalformedInt,
    MissingSizeConstraint,
    MissingValueConstraint,
    NotEnoughBits,
    NotImplemented,
}

/// A bit-wise cursor used to decode aligned PER messages.
pub struct Decoder<'a> {
    data: &'a [u8],
    len: usize,
    pos: usize,
}

/// How many bits `read_to_vec` takes from the buffer to hand out `len` bits:
/// fewer than eight are taken as they are, more are taken in whole bytes.
pub open spec fn span_read(len: nat) -> nat {
    if len < 8 {
        len
    } else {
        8 * ((len + 7) / 8)
    }
}

/// What `n` bits at bit `pos` of `bits` read as: their value as a number,
/// most significant bit first, and the position of the bit after them.
pub open spec fn read_at(bits: Seq<bool>, pos: int, n: nat) -> Result<(nat, int), DecodeError> {
    if pos + n > bits.len() {
        Err(DecodeError::NotEnoughBits)
    } else {
        Ok((bits_value(bits.subrange(pos, pos + n)), pos + n))
    }
}

/// The bytes that `read_to_vec` hands out for `len` bits at bit `pos` of
/// `bits`: nothing for no bits; one byte with the bits in its low end for
/// fewer than eight; else the whole bytes that start at `pos`, the last of
/// which may reach beyond the `len` bits.
pub open spec fn bytes_read(bits: Seq<bool>, pos: int, len: nat) -> Seq<u8> {
    if len == 0 {
        Seq::empty()
    } else if len < 8 {
        seq![bits_value(bits.subrange(pos, pos + len)) as u8]
    } else {
        Seq::new(
            (len + 7) / 8,
            |i: int| bits_value(bits.subrange(pos + 8 * i, pos + 8 * i + 8)) as u8,
        )
    }
}

/// What a length determinant at bit `pos` of `bits` decodes to: the length
/// and the position of the bit after the determinant.
pub open spec fn parse_length(bits: Seq<bool>, pos: int) -> Result<(nat, int), DecodeError> {
    if pos + 8 > bits.len() {
        Err(DecodeError::MalformedLength)
    } else if !bits[pos] {
        Ok((bits_value(bits.subrange(pos + 1, pos + 8)), pos + 8))
    } else if bits[pos + 1] {
        Err(DecodeError::NotImplemented)
    } else if pos + 16 > bits.len() {
        Err(DecodeError::MalformedLength)
    } else {
        Ok((bits_value(bits.subrange(pos + 2, pos + 16)), pos + 16))
    }
}

/// What a run of one to eight octets behind their number, at bit `pos` of
/// `bits`, decodes to: the unsigned value of the octets, their number, and
/// the position of the bit after them.
pub open spec fn parse_octets(bits: Seq<bool>, pos: int) -> Result<(nat, nat, int), DecodeError> {
    match parse_length(bits, pos) {
        Err(e) => Err(e),
        Ok((len, start)) => {
            if len == 0 {
                Err(DecodeError::MalformedInt)
            } else if len > 8 {
                Err(DecodeError::NotImplemented)
            } else if start + 8 * len > bits.len() {
                Err(DecodeError::NotEnoughBits)
            } else {
                Ok((bits_value(bits.subrange(start, start + 8 * len)), len, start + 8 * len))
            }
        },
    }
}

/// What a whole number between `min` and `max`, at bit `pos` of `bits`,
/// decodes to: the number and the position of the bit after it.
///
/// With both bounds, the offset from `min` is read from as many bits as the
/// largest offset `max - min` has digits: as they are up to eight, from two
/// octets up to sixteen, and above that from a run of octets behind their
/// number; an offset above `max - min` is malformed. With a lower bound only,
/// the offset is the unsigned value of a run of octets behind their number.
/// Otherwise the number is such a run read in two's complement.
pub open spec fn parse_int(bits: Seq<bool>, pos: int, min: Option<i64>, max: Option<i64>) -> Result<
    (i64, int),
    DecodeError,
> {
    match (min, max) {
        (Some(l), Some(h)) => {
            let span = (h - l) as nat;
            let n = bit_width(span);
            if n <= 16 {
                let width = if n <= 8 {
                    n
                } else {
                    16
                };
                if pos + width > bits.len() {
                    Err(DecodeError::NotEnoughBits)
                } else {
                    let v = bits_value(bits.subrange(pos, pos + width));
                    if v > span {
                        Err(DecodeError::MalformedInt)
                    } else {
                        Ok(((l + v) as i64, pos + width))
                    }
                }
            } else {
                match parse_octets(bits, pos) {
                    Err(e) => Err(e),
                    Ok((v, _, next)) => {
                        if v > span {
                            Err(DecodeError::MalformedInt)
                        } else {
                            Ok(((l + v) as i64, next))
                        }
                    },
                }
            }
        },
        (Some(l), None) => {
            match parse_octets(bits, pos) {
                Err(e) => Err(e),
                Ok((v, _, next)) => {
                    if l + v > i64::MAX {
                        Err(DecodeError::MalformedInt)
                    } else {
                        Ok(((l + v) as i64, next))
                    }
                },
            }
        },
        _ => {
            match parse_octets(bits, pos) {
                Err(e) => Err(e),
                Ok((v, len, next)) => Ok((twos_value(v, len) as i64, next)),
            }
        },
    }
}

/// The whole bytes that `read_to_vec` hands out hold the bits that it read.
pub proof fn lemma_bytes_read_bits(bits: Seq<bool>, pos: int, k: nat)
    requires
        k >= 1,
        0 <= pos,
        pos + 8 * k <= bits.len(),
    ensures
        bytes_read(bits, pos, 8 * k).len() == k,
        bits_of(bytes_read(bits, pos, 8 * k)) == bits.subrange(pos, pos + 8 * k),
{
    let c = bytes_read(bits, pos, 8 * k);
    assert forall|i: int| 0 <= i < 8 * k implies bits_of(c)[i] == bits[pos + i] by {
        let w = bits.subrange(pos + 8 * (i / 8), pos + 8 * (i / 8) + 8);
        lemma2_to64();
        lemma_nat_bits_bits_value(w);
        lemma_byte_digits(c[i / 8]);
        assert(bits_of_byte(c[i / 8])[i % 8] == bit_of(c[i / 8], i % 8));
        assert(w[i % 8] == bits[pos + i]);
    }
    assert(bits_of(c) =~= bits.subrange(pos, pos + 8 * k));
}

/// How the leading bits of an octet show in its value.
proof fn lemma_short_octet(v: u8)
    by (bit_vector)
    ensures
        (v & 0x80 == 0) == (v < 128),
        v < 128 ==> v & 0x7F == v,
        v >= 128 ==> ((v & 0x40 == 0) == (v < 192)),
        128 <= v < 192 ==> v & 0x3F == v - 128,
{
}

impl<'a> Decoder<'a> {
    /// The bytes that are being decoded.
    pub closed spec fn data(&self) -> Seq<u8> {
        self.data@
    }

    /// The position of the cursor: the number of bits consumed so far.
    pub closed spec fn pos(&self) -> int {
        self.pos as int
    }

    /// The bits that are being decoded, in wire order.
    pub open spec fn bits(&self) -> Seq<bool> {
        bits_of(self.data())
    }

    /// The decoder's invariant: the cursor is inside the buffer or at its end.
    pub closed spec fn wf(&self) -> bool {
        &&& self.len == 8 * self.data@.len()
        &&& self.pos <= self.len
    }

    /// The cursor of a well-formed decoder is at most the number of bits.
    pub proof fn lemma_pos_in_range(&self)
        requires
            self.wf(),
        ensures
            0 <= self.pos() <= self.bits().len(),
            self.bits().len() <= usize::MAX,
    {
    }

    /// Construct a new `Decoder` with an array of bytes.
    pub fn new(data: &'a [u8]) -> (d: Decoder<'a>)
        requires
            8 * data@.len() <= usize::MAX,
        ensures
            d.wf(),
            d.data() == data@,
            d.pos() == 0,
    {
        Decoder { data, len: 8 * data.len(), pos: 0 }
    }

    /// Read `n` bits, where `0 <= n <= 8`. See `read_to_vec` for larger `n`.
    /// Returns an `Err` if the read would consume more bits than are
    /// available. Else, returns the bits as a `u8` with left-padding.
    pub fn read(&mut self, n: usize) -> (r: Result<u8, DecodeError>)
        requires
            old(self).wf(),
            n <= 8,
        ensures
            final(self).wf(),
            final(self).data() == old(self).data(),
            match r {
                Ok(v) => read_at(old(self).bits(), old(self).pos(), n as nat) == Ok::<
                    (nat, int),
                    DecodeError,
                >((v as nat, final(self).pos())),
                Err(e) => {
                    &&& read_at(old(self).bits(), old(self).pos(), n as nat) == Err::<
                        (nat, int),
                        DecodeError,
                    >(e)
                    &&& final(self).pos() == old(self).pos()
                },
            },
    {
        if n == 0 {
            assert(self.bits().subrange(self.pos(), self.pos()).len() == 0);
            return Ok(0);
        }
        if n > self.len - self.pos {
            return Err(DecodeError::NotEnoughBits);
        }
        let l = self.pos / 8;
        let off = self.pos % 8;
        let b0: u8 = self.data[l];
        let ret: u8;
        let ghost b1g: u8 = 0;
        if off + n <= 8 {
            ret = (b0 >> ((8 - off - n) as u8)) & (0xFFu8 >> ((8 - n) as u8));
        } else {
            let b1: u8 = self.data[l + 1];
            let k = off + n - 8;
            ret = ((b0 & (0xFFu8 >> (off as u8))) << (k as u8)) | (b1 >> ((8 - k) as u8));
            proof {
                b1g = b1;
            }
        }
        proof {
            let window = self.bits().subrange(self.pos(), self.pos() + n);
            let padded = zero_bits(8 - n) + window;
            assert forall|j: int| 0 <= j < 8 implies bit_of(ret, j) == padded[j] by {
                let ju = j as u8;
                if off + n <= 8 {
                    let sh = (8 - off - n) as u8;
                    lemma_bit_and(b0 >> sh, 0xFFu8 >> ((8 - n) as u8), ju);
                    lemma_bit_shr(b0, sh, ju);
                    lemma_bit_low_mask((8 - n) as u8, ju);
                    if j >= 8 - n {
                        let t = j - (8 - n);
                        assert(window[t] == self.bits()[self.pos() + t]);
                        assert((self.pos() + t) / 8 == l as int);
                        assert((self.pos() + t) % 8 == off + t);
                    }
                } else {
                    let k = (off + n - 8) as u8;
                    let m0 = 0xFFu8 >> (off as u8);
                    lemma_bit_or((b0 & m0) << k, b1g >> ((8 - k) as u8), ju);
                    lemma_bit_shl(b0 & m0, k, ju);
                    lemma_bit_shr(b1g, (8 - k) as u8, ju);
                    if j + k < 8 {
                        lemma_bit_and(b0, m0, (j + k) as u8);
                        lemma_bit_low_mask(off as u8, (j + k) as u8);
                    }
                    if j >= 8 - n {
                        let t = j - (8 - n);
                        assert(window[t] == self.bits()[self.pos() + t]);
                        if j + k < 8 {
                            assert((self.pos() + t) / 8 == l as int);
                            assert((self.pos() + t) % 8 == j + k);
                        } else {
                            assert((self.pos() + t) / 8 == l + 1);
                            assert((self.pos() + t) % 8 == j + k - 8);
                        }
                    }
                }
            }
            assert(bits_of_byte(ret) =~= padded);
            lemma_byte_digits(ret);
            lemma_bits_value_zero_prefix((8 - n) as nat, window);
        }
        self.pos += n;
        Ok(ret)
    }

    /// Read a byte.
    pub fn read_u8(&mut self) -> (r: Result<u8, DecodeError>)
        requires
            old(self).wf(),
        ensures
            final(self).wf(),
            final(self).data() == old(self).data(),
            match r {
                Ok(v) => read_at(old(self).bits(), old(self).pos(), 8) == Ok::<
                    (nat, int),
                    DecodeError,
                >((v as nat, final(self).pos())),
                Err(e) => {
                    &&& read_at(old(self).bits(), old(self).pos(), 8) == Err::<
                        (nat, int),
                        DecodeError,
                    >(e)
                    &&& final(self).pos() == old(self).pos()
                },
            },
    {
        match self.read(8) {
            Ok(v) => Ok(v),
            Err(_) => Err(DecodeError::NotEnoughBits),
        }
    }

    /// Read `len` bits into `content`.
    /// Returns an `Err` if the read would consume more bits than are
    /// available. Fewer than eight bits are pushed onto `content` as one `u8`
    /// with left-padding. Eight bits or more are pushed as whole bytes, the
    /// last of which may hold bits beyond `len`; the cursor then still
    /// advances by `len` bits only.
    pub fn read_to_vec(&mut self, content: &mut Vec<u8>, len: usize) -> (r: Result<
        (),
        DecodeError,
    >)
        requires
            old(self).wf(),
        ensures
            final(self).wf(),
            final(self).data() == old(self).data(),
            match r {
                Ok(_) => {
                    &&& old(self).pos() + span_read(len as nat) <= old(self).bits().len()
                    &&& final(self).pos() == old(self).pos() + len
                    &&& final(content)@.len() == old(content)@.len() + (len + 7) / 8
                    &&& final(content)@ == old(content)@ + bytes_read(
                        old(self).bits(),
                        old(self).pos(),
                        len as nat,
                    )
                },
                Err(e) => {
                    &&& old(self).pos() + span_read(len as nat) > old(self).bits().len()
                    &&& e == DecodeError::NotEnoughBits
                    &&& final(self).pos() == old(self).pos()
                    &&& final(content)@ == old(content)@
                },
            },
    {
        if len == 0 {
            assert(content@ =~= content@ + Seq::<u8>::empty());
            return Ok(());
        }
        if len < 8 {
            match self.read(len) {
                Ok(v) => {
                    content.push(v);
                    assert(content@ =~= old(content)@ + bytes_read(
                        old(self).bits(),
                        old(self).pos(),
                        len as nat,
                    ));
                    return Ok(());
                },
                Err(e) => {
                    return Err(e);
                },
            }
        }
        let num_bytes = len / 8 + if len % 8 != 0 {
            1
        } else {
            0
        };
        if num_bytes > (self.len - self.pos) / 8 {
            return Err(DecodeError::NotEnoughBits);
        }
        let start = self.pos;
        let ghost bits = self.bits();
        let mut i: usize = 0;
        while i < num_bytes
            invariant
                self.wf(),
                self.data() == old(self).data(),
                bits == self.bits(),
                i <= num_bytes,
                start + 8 * num_bytes <= bits.len(),
                self.pos() == start + 8 * i,
                self.pos == start + 8 * i,
                len >= 8,
                num_bytes == (len + 7) / 8,
                content@ == old(content)@ + bytes_read(bits, start as int, len as nat).take(
                    i as int,
                ),
            decreases num_bytes - i,
        {
            match self.read_u8() {
                Ok(v) => {
                    content.push(v);
                },
                Err(e) => {
                    return Err(e);
                },
            }
            i += 1;
            assert(content@ =~= old(content)@ + bytes_read(bits, start as int, len as nat).take(
                i as int,
            ));
        }
        self.pos = start + len;
        assert(content@ =~= old(content)@ + bytes_read(bits, start as int, len as nat));
        Ok(())
    }

    /// Decode an aligned PER length determinant: one octet `0xxxxxxx` for a
    /// length below 128, two octets `10xxxxxx xxxxxxxx` for a length below
    /// 16384. The fragmented form `11xxxxxx` is not supported.
    pub fn decode_length(&mut self) -> (r: Result<usize, DecodeError>)
        requires
            old(self).wf(),
        ensures
            final(self).wf(),
            final(self).data() == old(self).data(),
            match r {
                Ok(n) => parse_length(old(self).bits(), old(self).pos()) == Ok::<
                    (nat, int),
                    DecodeError,
                >((n as nat, final(self).pos())),
                Err(e) => parse_length(old(self).bits(), old(self).pos()) == Err::<
                    (nat, int),
                    DecodeError,
                >(e),
            },
    {
        let ghost bits = self.bits();
        let ghost pos = self.pos();
        let val = match self.read_u8() {
            Ok(v) => v,
            Err(_) => {
                return Err(DecodeError::MalformedLength);
            },
        };
        proof {
            lemma2_to64();
            lemma_short_octet(val);
            let w = bits.subrange(pos, pos + 8);
            lemma_bits_value_head(w);
            lemma_bits_value_head(w.skip(1));
            assert(w.skip(1) =~= bits.subrange(pos + 1, pos + 8));
            assert(w.skip(1).skip(1) =~= bits.subrange(pos + 2, pos + 8));
        }
        if val & 0x80 == 0 {
            return Ok((val & LENGTH_MASK_SHORT) as usize);
        }
        if val & 0x40 != 0 {
            return Err(DecodeError::NotImplemented);
        }
        let high = (val & LENGTH_MASK_LONG) as usize;
        let low = match self.read_u8() {
            Ok(v) => v,
            Err(_) => {
                return Err(DecodeError::MalformedLength);
            },
        };
        proof {
            let hi = bits.subrange(pos + 2, pos + 8);
            let lo = bits.subrange(pos + 8, pos + 16);
            assert(bits.subrange(pos + 2, pos + 16) =~= hi + lo);
            lemma_bits_value_concat(hi, lo);
        }
        Ok(high * 256 + low as usize)
    }

    /// Read a run of one to eight octets that stands behind its number.
    fn read_octets(&mut self) -> (r: Result<(Vec<u8>, usize), DecodeError>)
        requires
            old(self).wf(),
        ensures
            final(self).wf(),
            final(self).data() == old(self).data(),
            match r {
                Ok((content, len)) => {
                    &&& 1 <= len <= 8
                    &&& content@.len() == len
                    &&& parse_octets(old(self).bits(), old(self).pos()) == Ok::<
                        (nat, nat, int),
                        DecodeError,
                    >((be_value(content@), len as nat, final(self).pos()))
                },
                Err(e) => parse_octets(old(self).bits(), old(self).pos()) == Err::<
                    (nat, nat, int),
                    DecodeError,
                >(e),
            },
    {
        let len = self.decode_length()?;
        if len == 0 {
            return Err(DecodeError::MalformedInt);
        }
        if len > 8 {
            return Err(DecodeError::NotImplemented);
        }
        let ghost start = self.pos();
        proof {
            self.lemma_pos_in_range();
        }
        let mut content: Vec<u8> = Vec::with_capacity(len);
        self.read_to_vec(&mut content, len * 8)?;
        proof {
            lemma_bytes_read_bits(self.bits(), start, len as nat);
            assert(content@ =~= bytes_read(self.bits(), start, 8 * len as nat));
            lemma_be_value_bits(content@);
        }
        Ok((content, len))
    }

    /// Decode an aligned PER integer between `min` and `max`.
    ///
    /// The primitive integers `i8`, `i16`, `i32`, `u8`, `u16` and `u32` are
    /// decoded by their `from_aper`. `decode_int` is for an integer field
    /// whose range lies somewhere between or beyond the primitive widths: a
    /// value in `[500, 503]` takes two bits.
    pub fn decode_int(&mut self, min: Option<i64>, max: Option<i64>) -> (r: Result<
        i64,
        DecodeError,
    >)
        requires
            old(self).wf(),
            min is Some && max is Some ==> min->0 <= max->0,
        ensures
            final(self).wf(),
            final(self).data() == old(self).data(),
            match r {
                Ok(v) => parse_int(old(self).bits(), old(self).pos(), min, max) == Ok::<
                    (i64, int),
                    DecodeError,
                >((v, final(self).pos())),
                Err(e) => parse_int(old(self).bits(), old(self).pos(), min, max) == Err::<
                    (i64, int),
                    DecodeError,
                >(e),
            },
    {
        let ghost bits = self.bits();
        let ghost pos = self.pos();
        proof {
            lemma2_to64();
            self.lemma_pos_in_range();
        }
        match (min, max) {
            (Some(l), Some(h)) => {
                let span: u64 = (h as i128 - l as i128) as u64;
                let n_bits = width_of(span);
                let offset: u64;
                if n_bits <= 8 {
                    offset = self.read(n_bits)? as u64;
                } else if n_bits <= 16 {
                    let high: u64 = self.read_u8()? as u64;
                    let low: u64 = self.read_u8()? as u64;
                    assert(high < 256 && low < 256);
                    offset = high * 256 + low;
                    proof {
                        let hi = bits.subrange(pos, pos + 8);
                        let lo = bits.subrange(pos + 8, pos + 16);
                        assert(bits.subrange(pos, pos + 16) =~= hi + lo);
                        lemma_bits_value_concat(hi, lo);
                    }
                } else {
                    let (content, len) = self.read_octets()?;
                    proof {
                        assert(content@.take(len as int) =~= content@);
                    }
                    offset = read_uint_be(&content, len);
                }
                if offset > span {
                    return Err(DecodeError::MalformedInt);
                }
                Ok((l as i128 + offset as i128) as i64)
            },
            (Some(l), None) => {
                let (content, len) = self.read_octets()?;
                proof {
                    assert(content@.take(len as int) =~= content@);
                }
                let sum: i128 = l as i128 + read_uint_be(&content, len) as i128;
                if sum > i64::MAX as i128 {
                    return Err(DecodeError::MalformedInt);
                }
                Ok(sum as i64)
            },
            _ => {
                let (content, len) = self.read_octets()?;
                proof {
                    assert(content@.take(len as int) =~= content@);
                }
                Ok(read_int_be(&content, len))
            },
        }
    }
}

} // verus!
