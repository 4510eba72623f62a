use crate::bits::{
    bit_of, bits_of, bits_of_byte, lemma_bit_or, lemma_bit_shl, lemma_bit_shr, lemma_byte_by_bits,
    lemma_byte_digits, lemma_nat_bits_len, nat_bits, shift_bytes_left, shift_left_bits,
};
use crate::constraints::{
    Constraints, LENGTH_DET_LONG, LENGTH_DET_SHORT, LENGTH_MASK_LONG, LENGTH_MASK_SHORT,
};
use crate::octets::{
    be_value, bit_width, lemma_bit_width_bounds, lemma_bit_width_le, lemma_nat_bits_widen,
    lemma_octets_bits, lemma_pow2_le, signed_be_octets, signed_octets, twos_code,
    unsigned_be_octets, unsigned_octets, width_of,
};
use vstd::arithmetic::power2::{lemma2_to64, lemma2_to64_rest, pow2};
use vstd::prelude::*;

verus! {

/// Trait for Aligned PER encoding.
///
/// A structure encodes its fields in the order of their declaration and
/// stitches the fragments together with `Encoder::append`. A choice encodes
/// an extension marker bit, then the index of the chosen alternative with
/// `encode_int` over the range of the indices, then the alternative itself.
///
/// # Examples
///
/// An enum for the ASN.1 choice `CHOICE { ping NULL, level INTEGER(0..255), ... }`:
///
/// ```
/// use asn1_aper::{encode_int, unconstrained, APerEncode, Constraints, EncodeError, Encoder};
///
/// enum Message {
///     Ping,
///     Level(u8),
/// }
///
/// impl APerEncode for Message {
///     fn constraints() -> Constraints {
///         unconstrained()
///     }
///
///     fn to_aper(&self, _: Constraints) -> Result<Encoder, EncodeError> {
///         let mut enc = false.to_aper(unconstrained())?;
///         match self {
///             Message::Ping => {
///                 enc.append(&encode_int(0, Some(0), Some(1))?);
///             }
///             Message::Level(level) => {
///                 enc.append(&encode_int(1, Some(0), Some(1))?);
///                 enc.append(&level.to_aper(unconstrained())?);
///             }
///         }
///         Ok(enc)
///     }
/// }
/// ```
pub trait APerEncode: Sized {
    /// The bit string that this value encodes to under `constraints`, or the
    /// reason why it does not encode. An implementation states it here: left
    /// as it is, it is unknown, and no `to_aper` can be shown to meet it.
    open spec fn aper_bits(&self, constraints: Constraints) -> Result<Seq<bool>, EncodeError> {
        arbitrary()
    }

    /// The PER-visible constraints of the type, in contracts.
    open spec fn encode_constraints() -> Constraints {
        arbitrary()
    }

    /// PER-visible constraints of the type.
    fn constraints() -> (c: Constraints)
        ensures
            c == Self::encode_constraints(),
    ;

    /// Encode `self` as a fragment for use with `Encoder::append`.
    fn to_aper(&self, constraints: Constraints) -> (r: Result<Encoder, EncodeError>)
        ensures
            match r {
                Ok(e) => e.wf() && self.aper_bits(constraints) == Ok::<Seq<bool>, EncodeError>(
                    e.bits(),
                ),
                Err(err) => self.aper_bits(constraints) == Err::<Seq<bool>, EncodeError>(err),
            },
    ;
}

/// Why a value could not be encoded.
#[derive(Debug, PartialEq, Eq, Structural)]
pub enum EncodeError {
    MissingSizeConstraint,
    MissingValueConstraint,
    NotImplemented,
    WriteError,
}

/// An aligned PER encoding under construction: a vector of bytes, of which the
/// last `r_padding` bits of the last byte are not part of the encoding.
#[derive(Debug)]
pub struct Encoder {
    bytes: Vec<u8>,
    r_padding: usize,
}

/// The first `8 * bytes.len() - pad` bits of `bytes`: what an encoder with
/// these bytes and this much right-padding has encoded.
pub open spec fn payload_bits(bytes: Seq<u8>, pad: nat) -> Seq<bool> {
    bits_of(bytes).take(8 * bytes.len() - pad)
}

/// The padding is less than a byte, there is none without a byte to hold it,
/// and the padding bits are zero.
pub open spec fn padding_ok(bytes: Seq<u8>, pad: nat) -> bool {
    &&& pad <= 7
    &&& bytes.len() == 0 ==> pad == 0
    &&& forall|i: int| 8 * bytes.len() - pad <= i < 8 * bytes.len() ==> !bits_of(bytes)[i]
}

/// `a` with right-padding `pa`, then `b` with right-padding `pb`, stitched
/// into `r` with right-padding `pr`: the case of `Encoder::append` in which
/// the first bits of `b` go into the last byte of `a`.
proof fn lemma_stitch(a: Seq<u8>, pa: nat, b: Seq<u8>, pb: nat, s: Seq<u8>, r: Seq<u8>, pr: nat)
    requires
        padding_ok(a, pa),
        padding_ok(b, pb),
        1 <= pa,
        b.len() >= 1,
        bits_of(s) == shift_left_bits(bits_of(b), pa as int),
        s.len() == b.len(),
        8 - pb <= pa ==> pr == pa + pb - 8 && r == a.update(
            a.len() - 1,
            a.last() | (b[0] >> ((8 - pa) as u8)),
        ) + s.drop_last(),
        8 - pb > pa ==> pr == pa + pb && r == a.update(
            a.len() - 1,
            a.last() | (b[0] >> ((8 - pa) as u8)),
        ) + s,
    ensures
        padding_ok(r, pr),
        payload_bits(r, pr) == payload_bits(a, pa) + payload_bits(b, pb),
{
    let n = a.len() as int;
    let la = 8 * n - pa;
    let lb = 8 * b.len() - pb;
    let tail = a.last() | (b[0] >> ((8 - pa) as u8));
    let sb = shift_left_bits(bits_of(b), pa as int);
    assert forall|p: int| 0 <= p < 8 * r.len() implies bits_of(r)[p] == (if p < la {
        bits_of(a)[p]
    } else if p < la + lb {
        bits_of(b)[p - la]
    } else {
        false
    }) by {
        if p < 8 * n - 8 {
            assert(r[p / 8] == a[p / 8]);
        } else if p < 8 * n {
            let j = p % 8;
            assert(r[p / 8] == tail);
            lemma_bit_or(a.last(), b[0] >> ((8 - pa) as u8), j as u8);
            lemma_bit_shr(b[0], (8 - pa) as u8, j as u8);
            assert(bits_of(a)[p] == bit_of(a.last(), j));
            if j >= 8 - pa {
                assert(bits_of(b)[p - la] == bit_of(b[0], j - (8 - pa)));
            }
        } else {
            let q = p - 8 * n;
            assert(r[p / 8] == s[q / 8]);
            assert(bits_of(s)[q] == bit_of(s[q / 8], q % 8));
            assert(bits_of(s)[q] == sb[q]);
        }
    }
    assert(payload_bits(r, pr) =~= payload_bits(a, pa) + payload_bits(b, pb));
}

/// The encoded bit string fixes the bytes and the padding: two byte sequences
/// with padding in order that hold the same bit string are the same, and so
/// is their padding.
pub proof fn lemma_payload_determines(a: Seq<u8>, pa: nat, b: Seq<u8>, pb: nat)
    requires
        padding_ok(a, pa),
        padding_ok(b, pb),
        payload_bits(a, pa) == payload_bits(b, pb),
    ensures
        a == b,
        pa == pb,
{
    assert(payload_bits(a, pa).len() == 8 * a.len() - pa);
    assert(payload_bits(b, pb).len() == 8 * b.len() - pb);
    assert(a.len() == b.len());
    assert forall|i: int| 0 <= i < a.len() implies a[i] == b[i] by {
        assert forall|j: int| 0 <= j < 8 implies bit_of(a[i], j) == bit_of(b[i], j) by {
            let p = 8 * i + j;
            assert(bits_of(a)[p] == bit_of(a[i], j));
            assert(bits_of(b)[p] == bit_of(b[i], j));
            if p < 8 * a.len() - pa {
                assert(payload_bits(a, pa)[p] == bits_of(a)[p]);
                assert(payload_bits(b, pb)[p] == bits_of(b)[p]);
            }
        }
        lemma_byte_by_bits(a[i], b[i]);
    }
    assert(a =~= b);
}

impl Encoder {
    /// The bytes of the encoder, in contracts.
    pub closed spec fn spec_bytes(&self) -> Seq<u8> {
        self.bytes@
    }

    /// The number of right-padding bits, in contracts.
    pub closed spec fn spec_r_padding(&self) -> nat {
        self.r_padding as nat
    }

    /// The bit string that has been encoded so far.
    pub open spec fn bits(&self) -> Seq<bool> {
        payload_bits(self.spec_bytes(), self.spec_r_padding())
    }

    /// The encoder's invariant: `r_padding` is in `[0, 7]`, it is 0 where
    /// there are no bytes, and the padding bits of the last byte are zero.
    pub open spec fn wf(&self) -> bool {
        padding_ok(self.spec_bytes(), self.spec_r_padding())
    }

    /// The encoded bit string fixes the bytes and the padding of an encoder.
    pub proof fn lemma_determined_by_bits(&self, other: &Encoder)
        requires
            self.wf(),
            other.wf(),
            self.bits() == other.bits(),
        ensures
            self.spec_bytes() == other.spec_bytes(),
            self.spec_r_padding() == other.spec_r_padding(),
    {
        lemma_payload_determines(
            self.spec_bytes(),
            self.spec_r_padding(),
            other.spec_bytes(),
            other.spec_r_padding(),
        );
    }

    /// Construct a new, empty `Encoder`.
    pub fn new() -> (e: Encoder)
        ensures
            e.spec_bytes() == Seq::<u8>::empty(),
            e.spec_r_padding() == 0,
            e.wf(),
            e.bits() == Seq::<bool>::empty(),
    {
        Encoder { bytes: Vec::new(), r_padding: 0 }
    }

    /// Construct a new `Encoder` with `bytes` and `r_pad` bits of right-padding.
    pub fn with_bytes_and_padding(bytes: Vec<u8>, r_pad: usize) -> (e: Encoder)
        ensures
            e.spec_bytes() == bytes@,
            e.spec_r_padding() == r_pad,
    {
        Encoder { bytes, r_padding: r_pad }
    }

    /// Construct a new `Encoder` with `bytes` and zero bits of right-padding.
    pub fn with_bytes(bytes: Vec<u8>) -> (e: Encoder)
        ensures
            e.spec_bytes() == bytes@,
            e.spec_r_padding() == 0,
            e.wf(),
            e.bits() == bits_of(bytes@),
    {
        Self::with_bytes_and_padding(bytes, 0)
    }

    /// Append `other` to the end of `self`: the first bit of `other` follows
    /// the last encoded bit of `self`, with no padding between them.
    pub fn append(&mut self, other: &Encoder)
        requires
            old(self).wf(),
            other.wf(),
        ensures
            final(self).wf(),
            final(self).bits() == old(self).bits() + other.bits(),
    {
        let n = self.bytes.len();
        let m = other.bytes.len();
        if m == 0 {
            assert(self.bits() =~= self.bits() + other.bits());
            return ;
        }
        if n == 0 || self.r_padding == 0 {
            let mut rest = other.bytes.clone();
            assert(rest@ == other.bytes@);
            self.bytes.append(&mut rest);
            self.r_padding = other.r_padding;
            proof {
                let a = old(self).bytes@;
                let b = other.bytes@;
                assert forall|p: int| 0 <= p < 8 * (a + b).len() implies bits_of(a + b)[p] == (
                if p < 8 * a.len() {
                    bits_of(a)[p]
                } else {
                    bits_of(b)[p - 8 * a.len()]
                }) by {
                    if p >= 8 * a.len() {
                        assert((a + b)[p / 8] == b[(p - 8 * a.len()) / 8]);
                    }
                }
                assert(self.bits() =~= old(self).bits() + other.bits());
            }
            return ;
        }
        let rp = self.r_padding;
        let tail: u8 = self.bytes[n - 1];
        let head: u8 = other.bytes[0];
        self.bytes.set(n - 1, tail | (head >> ((8 - rp) as u8)));
        let mut rest = other.bytes.clone();
        assert(rest@ == other.bytes@);
        shift_bytes_left(&mut rest, rp);
        let ghost shifted = rest@;
        let used = 8 - other.r_padding;
        if used <= rp {
            rest.pop();
            self.r_padding = rp - used;
        } else {
            self.r_padding = rp + other.r_padding;
        }
        self.bytes.append(&mut rest);
        proof {
            lemma_stitch(
                old(self).bytes@,
                rp as nat,
                other.bytes@,
                other.r_padding as nat,
                shifted,
                self.bytes@,
                self.r_padding as nat,
            );
        }
    }

    /// Get a reference to the bytes of an encoder.
    pub fn bytes(&self) -> (r: &Vec<u8>)
        ensures
            r@ == self.spec_bytes(),
    {
        &self.bytes
    }

    /// Get a reference to the bytes of an encoder.
    pub fn bytes_mut(&self) -> (r: &Vec<u8>)
        ensures
            r@ == self.spec_bytes(),
    {
        &self.bytes
    }

    /// Get the number of right-padding bits.
    pub fn r_padding(&self) -> (r: usize)
        ensures
            r == self.spec_r_padding(),
    {
        self.r_padding
    }

    /// Set the number of right-padding bits.
    pub fn set_r_padding(&mut self, n: usize)
        ensures
            final(self).spec_bytes() == old(self).spec_bytes(),
            final(self).spec_r_padding() == n,
    {
        self.r_padding = n;
    }
}

/// The octets of the length determinant of `n`, for `n < 16384`: the octet
/// `n` itself below 128, else `10` and the fourteen digits of `n` in two octets.
pub open spec fn length_octets(n: nat) -> Seq<u8> {
    if n < 128 {
        seq![n as u8]
    } else {
        seq![(128 + n / 256) as u8, (n % 256) as u8]
    }
}

/// The leading bits of a length determinant, set on a length that leaves them
/// free.
proof fn lemma_length_masks(v: u8)
    by (bit_vector)
    ensures
        v < 128 ==> (v & 0x7F) | 0 == v,
        v < 64 ==> (v & 0x3F) | 0x80 == 128 + v,
{
}

/// Encode an aligned PER length determinant.
pub fn encode_length(len: usize) -> (r: Result<Encoder, EncodeError>)
    ensures
        match r {
            Ok(e) => {
                &&& len < 16384
                &&& e.spec_bytes() == length_octets(len as nat)
                &&& e.spec_r_padding() == 0
                &&& e.wf()
            },
            Err(e) => len >= 16384 && e == EncodeError::NotImplemented,
        },
{
    if len < 128 {
        let v = len as u8;
        proof {
            lemma_length_masks(v);
        }
        let mut bytes: Vec<u8> = Vec::new();
        bytes.push((v & LENGTH_MASK_SHORT) | LENGTH_DET_SHORT);
        assert(bytes@ =~= length_octets(len as nat));
        Ok(Encoder::with_bytes(bytes))
    } else if len < 16384 {
        let upper = (len / 256) as u8;
        let lower = (len % 256) as u8;
        proof {
            lemma_length_masks(upper);
        }
        let mut bytes: Vec<u8> = Vec::new();
        bytes.push((upper & LENGTH_MASK_LONG) | LENGTH_DET_LONG);
        bytes.push(lower);
        assert(bytes@ =~= length_octets(len as nat));
        Ok(Encoder::with_bytes(bytes))
    } else {
        Err(EncodeError::NotImplemented)
    }
}

/// The bits of the length determinant of `n`.
pub open spec fn length_bits(n: nat) -> Seq<bool> {
    bits_of(length_octets(n))
}

/// The encoding of the whole number `value` between `min` and `max`.
///
/// With both bounds, the offset `value - min` is written with as many digits
/// as the largest offset `max - min` has: as they are up to eight, in two
/// octets up to sixteen, and above that in as many octets as those digits
/// fill, behind their number as a length determinant. With a lower bound
/// only, the offset is written in the fewest octets that hold it, behind their
/// number. Otherwise `value` is written in two's complement, in the fewest
/// octets that hold it, behind their number.
pub open spec fn int_bits(value: i64, min: Option<i64>, max: Option<i64>) -> Seq<bool> {
    match (min, max) {
        (Some(l), Some(h)) => {
            let n = bit_width((h - l) as nat);
            let off = (value - l) as nat;
            if n <= 8 {
                nat_bits(off, n)
            } else if n <= 16 {
                nat_bits(off, 16)
            } else {
                let len = (n + 7) / 8;
                length_bits(len) + nat_bits(off, 8 * len)
            }
        },
        (Some(l), None) => {
            let off = (value - l) as nat;
            let len = unsigned_octets(off);
            length_bits(len) + nat_bits(off, 8 * len)
        },
        _ => {
            let len = signed_octets(value as int);
            length_bits(len) + nat_bits(twos_code(value as int, len), 8 * len)
        },
    }
}

/// A number of fewer than eight digits, moved to the high end of a byte, is
/// those digits and then zeros.
proof fn lemma_small_int_byte(o: u8, n: nat)
    requires
        1 <= n < 8,
        o < pow2(n),
    ensures
        payload_bits(seq![o << ((8 - n) as u8)], (8 - n) as nat) == nat_bits(o as nat, n),
        padding_ok(seq![o << ((8 - n) as u8)], (8 - n) as nat),
{
    let s = (8 - n) as u8;
    let bytes = seq![o << s];
    lemma_byte_digits(o);
    lemma_nat_bits_widen(o as nat, n, (8 - n) as nat);
    lemma_nat_bits_len(o as nat, n);
    assert forall|i: int| 0 <= i < 8 implies bits_of(bytes)[i] == (if i < n {
        nat_bits(o as nat, n)[i]
    } else {
        false
    }) by {
        lemma_bit_shl(o, s, i as u8);
        if i < n {
            assert(bits_of_byte(o)[i + s] == bit_of(o, i + s));
        }
    }
    assert(payload_bits(bytes, (8 - n) as nat) =~= nat_bits(o as nat, n));
}

/// The bits of a single octet are its eight digits.
pub proof fn lemma_one_octet_bits(b: u8)
    ensures
        bits_of(seq![b]) == nat_bits(b as nat, 8),
{
    lemma_byte_digits(b);
    assert(bits_of(seq![b]) =~= bits_of_byte(b));
}

/// The bits of the two octets of a number below 65536 are its sixteen digits.
proof fn lemma_two_octets_bits(v: nat)
    requires
        v < 65536,
    ensures
        bits_of(seq![(v / 256) as u8, (v % 256) as u8]) == nat_bits(v, 16),
{
    let bytes = seq![(v / 256) as u8, (v % 256) as u8];
    lemma_octets_bits(bytes);
    assert(bytes.drop_last() =~= seq![(v / 256) as u8]);
    assert(bytes.drop_last().drop_last() =~= Seq::<u8>::empty());
    reveal_with_fuel(be_value, 3);
}

/// Prefix a run of octets with their number as a length determinant.
fn with_length(octets: Vec<u8>) -> (r: Result<Encoder, EncodeError>)
    requires
        octets.len() < 16384,
    ensures
        r is Ok,
        r->Ok_0.wf(),
        r->Ok_0.bits() == length_bits(octets@.len()) + bits_of(octets@),
{
    let mut enc = encode_length(octets.len())?;
    let body = Encoder::with_bytes(octets);
    assert(enc.bits() =~= length_bits(octets@.len()));
    enc.append(&body);
    Ok(enc)
}

/// Encode an aligned PER integer between `min` and `max`.
///
/// The primitive integers `i8`, `i16`, `i32`, `u8`, `u16` and `u32` are
/// encoded by their `to_aper`. `encode_int` is for an integer field whose
/// range lies somewhere between or beyond the primitive widths.
pub fn encode_int(value: i64, min: Option<i64>, max: Option<i64>) -> (r: Result<
    Encoder,
    EncodeError,
>)
    requires
        min is Some ==> min->0 <= value,
        min is Some && max is Some ==> value <= max->0,
    ensures
        r is Ok,
        r->Ok_0.wf(),
        r->Ok_0.bits() == int_bits(value, min, max),
{
    proof {
        lemma2_to64();
    }
    match (min, max) {
        (Some(l), Some(h)) => {
            let span: u64 = (h as i128 - l as i128) as u64;
            let off: u64 = (value as i128 - l as i128) as u64;
            let n_bits = width_of(span);
            proof {
                lemma_bit_width_bounds(span as nat);
            }
            if n_bits == 0 {
                return Ok(Encoder::new());
            }
            if n_bits < 8 {
                proof {
                    lemma_pow2_le(n_bits as nat, 7);
                    lemma_small_int_byte(off as u8, n_bits as nat);
                }
                let mut bytes: Vec<u8> = Vec::new();
                bytes.push((off as u8) << ((8 - n_bits) as u8));
                assert(bytes@ =~= seq![(off as u8) << ((8 - n_bits) as u8)]);
                return Ok(Encoder::with_bytes_and_padding(bytes, 8 - n_bits));
            }
            if n_bits <= 16 {
                proof {
                    lemma_pow2_le(n_bits as nat, 16);
                }
                let mut bytes: Vec<u8> = Vec::new();
                if n_bits > 8 {
                    bytes.push((off / 256) as u8);
                    bytes.push((off % 256) as u8);
                    proof {
                        lemma_two_octets_bits(off as nat);
                        assert(bytes@ =~= seq![(off / 256) as u8, (off % 256) as u8]);
                    }
                } else {
                    bytes.push(off as u8);
                    proof {
                        lemma_one_octet_bits(off as u8);
                        assert(bytes@ =~= seq![off as u8]);
                    }
                }
                return Ok(Encoder::with_bytes(bytes));
            }
            let len = (n_bits + 7) / 8;
            proof {
                lemma_pow2_le(n_bits as nat, 8 * len as nat);
            }
            with_length(unsigned_be_octets(off, len))
        },
        (Some(l), None) => {
            let off: u64 = (value as i128 - l as i128) as u64;
            let width = width_of(off);
            let len = if width == 0 {
                1
            } else {
                (width + 7) / 8
            };
            proof {
                lemma_bit_width_bounds(off as nat);
                lemma_pow2_le(width as nat, 8 * len as nat);
            }
            with_length(unsigned_be_octets(off, len))
        },
        _ => {
            let mag: u64 = if value >= 0 {
                value as u64
            } else {
                (-(value + 1)) as u64
            };
            let width = width_of(mag);
            proof {
                lemma2_to64_rest();
                lemma_bit_width_bounds(mag as nat);
                lemma_bit_width_le(mag as nat, 63);
            }
            let len = width / 8 + 1;
            proof {
                lemma_pow2_le(width as nat, (8 * len - 1) as nat);
            }
            with_length(signed_be_octets(value, len))
        },
    }
}

} // verus!
