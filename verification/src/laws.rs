use crate::bit_string::{fixed_bits, number_bit, stored_bits, string_at, wire_bits, BitString};
use crate::bits::{
    bit_of, bits_of, bits_value, lemma_bits_value_concat, lemma_bits_value_nat_bits,
    lemma_nat_bits_bits_value, lemma_nat_bits_len, nat_bits, zero_bits,
};
use crate::constraints::Constraints;
use crate::decode::{
    parse_int, parse_length, parse_octets, read_at, span_read, APerDecode, DecodeError,
};
use crate::encode::{
    int_bits, lemma_one_octet_bits, length_bits, length_octets, padding_ok, payload_bits,
    APerEncode,
};
use crate::octets::{
    be_value, bit_width, lemma_bit_width_bounds, lemma_bit_width_le, lemma_nat_bits_widen,
    lemma_octets_bits, lemma_pow2_le, signed_octets, twos_code, twos_value, unsigned_octets,
};
use crate::sequence_of::{element_constraints, elems_bits, elems_parse, fixed_size, models_of};
use vstd::arithmetic::power2::{lemma2_to64, lemma2_to64_rest, lemma_pow2_unfold, pow2};
use vstd::prelude::*;

verus! {

/// The bit string `frag` stands in `bits` from bit `pos` on.
pub open spec fn occurs_at(bits: Seq<bool>, pos: int, frag: Seq<bool>) -> bool {
    &&& 0 <= pos
    &&& pos + frag.len() <= bits.len()
    &&& bits.subrange(pos, pos + frag.len()) == frag
}

/// Where two bit strings in a row stand in `bits`, each of them stands there.
pub proof fn lemma_occurs_split(bits: Seq<bool>, pos: int, a: Seq<bool>, b: Seq<bool>)
    requires
        occurs_at(bits, pos, a + b),
    ensures
        occurs_at(bits, pos, a),
        occurs_at(bits, pos + a.len(), b),
{
    let whole = bits.subrange(pos, pos + (a + b).len());
    assert(bits.subrange(pos, pos + a.len()) =~= whole.subrange(0, a.len() as int));
    assert(whole.subrange(0, a.len() as int) =~= a);
    assert(bits.subrange(pos + a.len(), pos + a.len() + b.len()) =~= whole.subrange(
        a.len() as int,
        (a + b).len() as int,
    ));
    assert(whole.subrange(a.len() as int, (a + b).len() as int) =~= b);
}

/// What an encoder has encoded stands at the start of its bytes.
pub proof fn lemma_encoded_occurs(bytes: Seq<u8>, pad: nat)
    requires
        padding_ok(bytes, pad),
    ensures
        occurs_at(bits_of(bytes), 0, payload_bits(bytes, pad)),
{
    assert(bits_of(bytes).subrange(0, 8 * bytes.len() - pad) =~= payload_bits(bytes, pad));
}

/// The sum of the widths of a run of reads.
pub open spec fn total_width(widths: Seq<nat>) -> nat
    decreases widths.len(),
{
    if widths.len() == 0 {
        0
    } else {
        total_width(widths.drop_last()) + widths.last()
    }
}

/// Where the cursor stands after reads of the given widths in turn, from bit
/// `pos` of `bits` on; `None` where one of the reads fails.
pub open spec fn reads_end(bits: Seq<bool>, pos: int, widths: Seq<nat>) -> Option<int>
    decreases widths.len(),
{
    if widths.len() == 0 {
        Some(pos)
    } else {
        match reads_end(bits, pos, widths.drop_last()) {
            None => None,
            Some(mid) => match read_at(bits, mid, widths.last()) {
                Ok((_, next)) => Some(next),
                Err(_) => None,
            },
        }
    }
}

/// Reads in a row from the start of a buffer, of a total width that the
/// buffer holds, all succeed and leave the cursor at that total width.
pub proof fn lemma_sequential_reads(bits: Seq<bool>, widths: Seq<nat>)
    requires
        total_width(widths) <= bits.len(),
    ensures
        reads_end(bits, 0, widths) == Some(total_width(widths) as int),
    decreases widths.len(),
{
    if widths.len() > 0 {
        lemma_sequential_reads(bits, widths.drop_last());
    }
}

/// The bits of a length determinant: a 0 and the seven digits of a length
/// below 128, which makes one octet; else `10` and the fourteen digits of a
/// length below 16384, which makes two.
pub proof fn lemma_length_form(n: nat)
    requires
        n < 16384,
    ensures
        n < 128 ==> length_octets(n).len() == 1 && !bit_of(length_octets(n)[0], 0),
        n >= 128 ==> length_octets(n).len() == 2 && bit_of(length_octets(n)[0], 0) && !bit_of(
            length_octets(n)[0],
            1,
        ),
        length_bits(n) == if n < 128 {
            seq![false] + nat_bits(n, 7)
        } else {
            seq![true, false] + nat_bits(n, 14)
        },
{
    lemma2_to64();
    if n < 128 {
        lemma_one_octet_bits(n as u8);
        lemma_nat_bits_widen(n, 7, 1);
        assert(seq![false] =~= zero_bits(1));
    } else {
        let octets = length_octets(n);
        lemma_octets_bits(octets);
        assert(octets.drop_last() =~= seq![(128 + n / 256) as u8]);
        assert(octets.drop_last().drop_last() =~= Seq::<u8>::empty());
        reveal_with_fuel(be_value, 3);
        assert(be_value(octets) == 32768 + n);
        let head = seq![true, false];
        let s = head + nat_bits(n, 14);
        lemma_nat_bits_len(n, 14);
        lemma_bits_value_concat(head, nat_bits(n, 14));
        lemma_bits_value_nat_bits(n, 14);
        assert(head.drop_last() =~= seq![true]);
        assert(head.drop_last().drop_last() =~= Seq::<bool>::empty());
        reveal_with_fuel(bits_value, 3);
        assert(bits_value(head) == 2);
        assert(bits_value(s) == 2 * pow2(14) + n);
        assert(bits_value(s) == 32768 + n);
        assert(s.len() == 16);
        lemma_nat_bits_bits_value(s);
        assert(nat_bits(32768 + n, 16) == s);
        assert(octets.len() == 2);
        assert(bits_of(octets) == nat_bits(be_value(octets), 16));
        assert(length_bits(n) == s);
    }
    assert(length_bits(n)[0] == bit_of(length_octets(n)[0], 0));
    assert(length_bits(n)[1] == bit_of(length_octets(n)[0], 1));
}

/// A length determinant decodes to the length that it was encoded from.
pub proof fn lemma_length_round_trip(n: nat, bits: Seq<bool>, pos: int)
    requires
        n < 16384,
        occurs_at(bits, pos, length_bits(n)),
    ensures
        parse_length(bits, pos) == Ok::<(nat, int), DecodeError>(
            (n, pos + length_bits(n).len()),
        ),
{
    lemma2_to64();
    lemma_length_form(n);
    let frag = length_bits(n);
    if n < 128 {
        lemma_nat_bits_len(n, 7);
        lemma_occurs_split(bits, pos, seq![false], nat_bits(n, 7));
        assert(bits[pos] == bits.subrange(pos, pos + 1)[0]);
        lemma_bits_value_nat_bits(n, 7);
    } else {
        lemma_nat_bits_len(n, 14);
        lemma_occurs_split(bits, pos, seq![true, false], nat_bits(n, 14));
        assert(bits[pos] == bits.subrange(pos, pos + 2)[0]);
        assert(bits[pos + 1] == bits.subrange(pos, pos + 2)[1]);
        lemma_bits_value_nat_bits(n, 14);
    }
}

/// A run of octets behind its number decodes to the value of the octets.
proof fn lemma_octets_round_trip(v: nat, len: nat, bits: Seq<bool>, pos: int)
    requires
        1 <= len <= 8,
        v < pow2(8 * len),
        occurs_at(bits, pos, length_bits(len) + nat_bits(v, 8 * len)),
    ensures
        parse_octets(bits, pos) == Ok::<(nat, nat, int), DecodeError>(
            (v, len, pos + (length_bits(len) + nat_bits(v, 8 * len)).len()),
        ),
{
    lemma_nat_bits_len(v, 8 * len);
    lemma_occurs_split(bits, pos, length_bits(len), nat_bits(v, 8 * len));
    lemma_length_round_trip(len, bits, pos);
    lemma_bits_value_nat_bits(v, 8 * len);
}

/// For a `value` that fits into `len` octets in two's complement, the code
/// is below `2^(8 * len)` and stands for `value`.
proof fn lemma_twos_round_trip(value: int, len: nat)
    requires
        1 <= len,
        -pow2((8 * len - 1) as nat) <= value < pow2((8 * len - 1) as nat),
    ensures
        twos_code(value, len) < pow2(8 * len),
        twos_value(twos_code(value, len), len) == value,
{
    lemma_pow2_unfold(8 * len);
}

/// The fewest octets that hold `value` in two's complement do hold it.
proof fn lemma_signed_octets_hold(value: i64)
    ensures
        1 <= signed_octets(value as int) <= 8,
        -pow2((8 * signed_octets(value as int) - 1) as nat) <= value < pow2(
            (8 * signed_octets(value as int) - 1) as nat,
        ),
{
    lemma2_to64();
    lemma2_to64_rest();
    let mag: nat = if value >= 0 {
        value as nat
    } else {
        (-value - 1) as nat
    };
    lemma_bit_width_bounds(mag);
    lemma_bit_width_le(mag, 63);
    lemma_pow2_le(bit_width(mag), (8 * signed_octets(value as int) - 1) as nat);
}

/// Decoding inverts encoding for whole numbers: where `value` lies between
/// the bounds that are there, and its encoding stands in `bits` from bit
/// `pos` on, decoding at `pos` under the same bounds gives `value` and the
/// position behind the encoding.
pub proof fn lemma_int_round_trip(
    value: i64,
    min: Option<i64>,
    max: Option<i64>,
    bits: Seq<bool>,
    pos: int,
)
    requires
        min is Some ==> min->0 <= value,
        min is Some && max is Some ==> value <= max->0,
        occurs_at(bits, pos, int_bits(value, min, max)),
    ensures
        parse_int(bits, pos, min, max) == Ok::<(i64, int), DecodeError>(
            (value, pos + int_bits(value, min, max).len()),
        ),
{
    lemma2_to64();
    match (min, max) {
        (Some(l), Some(h)) => {
            let span = (h - l) as nat;
            let n = bit_width(span);
            let off = (value - l) as nat;
            lemma_bit_width_bounds(span);
            if n <= 8 {
                lemma_nat_bits_len(off, n);
                lemma_bits_value_nat_bits(off, n);
            } else if n <= 16 {
                lemma_pow2_le(n, 16);
                lemma_nat_bits_len(off, 16);
                lemma_bits_value_nat_bits(off, 16);
            } else {
                let len = (n + 7) / 8;
                lemma_bit_width_le(span, 64);
                lemma_pow2_le(n, 8 * len);
                lemma_octets_round_trip(off, len, bits, pos);
            }
        },
        (Some(l), None) => {
            let off = (value - l) as nat;
            let len = unsigned_octets(off);
            lemma_bit_width_bounds(off);
            lemma_bit_width_le(off, 64);
            lemma_pow2_le(bit_width(off), 8 * len);
            lemma_octets_round_trip(off, len, bits, pos);
        },
        _ => {
            let len = signed_octets(value as int);
            lemma_signed_octets_hold(value);
            lemma_twos_round_trip(value as int, len);
            lemma_octets_round_trip(twos_code(value as int, len), len, bits, pos);
        },
    }
}

/// How many bits a whole number between two bounds takes: with at most 256
/// values in the range, as many bits as the largest offset has digits and no
/// length determinant; with at most 65536 values, two whole octets; with
/// more, a length determinant and then whole octets.
pub proof fn lemma_constrained_int_width(value: i64, min: i64, max: i64)
    requires
        min <= value <= max,
    ensures
        max - min + 1 <= 256 ==> int_bits(value, Some(min), Some(max)).len() == bit_width(
            (max - min) as nat,
        ),
        max - min + 1 > 1 ==> pow2((bit_width((max - min) as nat) - 1) as nat) < max - min + 1,
        max - min + 1 <= pow2(bit_width((max - min) as nat)),
        256 < max - min + 1 <= 65536 ==> int_bits(value, Some(min), Some(max)).len() == 16,
        65536 < max - min + 1 ==> int_bits(value, Some(min), Some(max)) == length_bits(
            (bit_width((max - min) as nat) + 7) / 8,
        ) + nat_bits((value - min) as nat, 8 * ((bit_width((max - min) as nat) + 7) / 8)),
{
    lemma2_to64();
    let span = (max - min) as nat;
    let n = bit_width(span);
    lemma_bit_width_bounds(span);
    lemma_nat_bits_len((value - min) as nat, n);
    lemma_nat_bits_len((value - min) as nat, 16);
    if span < 256 {
        lemma_bit_width_le(span, 8);
    } else if span < 65536 {
        lemma_bit_width_le(span, 16);
        if n <= 8 {
            lemma_pow2_le(n, 8);
        }
    } else {
        if n <= 16 {
            lemma_pow2_le(n, 16);
        }
    }
}

/// The types for which decoding inverts encoding.
pub trait APerRoundTrip: APerEncode + APerDecode {
    /// `constraints` are such that the value can be decoded under them from
    /// what it encodes to.
    spec fn fits(&self, constraints: Constraints) -> bool;

    /// Decoding inverts encoding: where the value encodes under constraints
    /// that fit it, and the encoding stands in `bits` from bit `pos` on,
    /// decoding at `pos` under the same constraints gives the value and the
    /// position behind the encoding.
    proof fn lemma_round_trip(&self, constraints: Constraints, bits: Seq<bool>, pos: int)
        requires
            self.fits(constraints),
            self.aper_bits(constraints) is Ok,
            occurs_at(bits, pos, self.aper_bits(constraints)->Ok_0),
        ensures
            Self::aper_parse(bits, pos, constraints) == Ok::<(Self::Model, int), DecodeError>(
                (self.model(), pos + self.aper_bits(constraints)->Ok_0.len()),
            ),
    ;
}

impl APerRoundTrip for () {
    open spec fn fits(&self, constraints: Constraints) -> bool {
        true
    }

    proof fn lemma_round_trip(&self, constraints: Constraints, bits: Seq<bool>, pos: int) {
    }
}

impl APerRoundTrip for bool {
    open spec fn fits(&self, constraints: Constraints) -> bool {
        true
    }

    proof fn lemma_round_trip(&self, constraints: Constraints, bits: Seq<bool>, pos: int) {
        assert(bits[pos] == bits.subrange(pos, pos + 1)[0]);
    }
}

impl APerRoundTrip for i8 {
    open spec fn fits(&self, constraints: Constraints) -> bool {
        true
    }

    proof fn lemma_round_trip(&self, constraints: Constraints, bits: Seq<bool>, pos: int) {
        lemma_int_round_trip(
            *self as i64,
            Some(i8::MIN as i64),
            Some(i8::MAX as i64),
            bits,
            pos,
        );
    }
}

impl APerRoundTrip for i16 {
    open spec fn fits(&self, constraints: Constraints) -> bool {
        true
    }

    proof fn lemma_round_trip(&self, constraints: Constraints, bits: Seq<bool>, pos: int) {
        lemma_int_round_trip(
            *self as i64,
            Some(i16::MIN as i64),
            Some(i16::MAX as i64),
            bits,
            pos,
        );
    }
}

impl APerRoundTrip for i32 {
    open spec fn fits(&self, constraints: Constraints) -> bool {
        true
    }

    proof fn lemma_round_trip(&self, constraints: Constraints, bits: Seq<bool>, pos: int) {
        lemma_int_round_trip(
            *self as i64,
            Some(i32::MIN as i64),
            Some(i32::MAX as i64),
            bits,
            pos,
        );
    }
}

impl APerRoundTrip for u8 {
    open spec fn fits(&self, constraints: Constraints) -> bool {
        true
    }

    proof fn lemma_round_trip(&self, constraints: Constraints, bits: Seq<bool>, pos: int) {
        lemma_int_round_trip(
            *self as i64,
            Some(u8::MIN as i64),
            Some(u8::MAX as i64),
            bits,
            pos,
        );
    }
}

impl APerRoundTrip for u16 {
    open spec fn fits(&self, constraints: Constraints) -> bool {
        true
    }

    proof fn lemma_round_trip(&self, constraints: Constraints, bits: Seq<bool>, pos: int) {
        lemma_int_round_trip(
            *self as i64,
            Some(u16::MIN as i64),
            Some(u16::MAX as i64),
            bits,
            pos,
        );
    }
}

impl APerRoundTrip for u32 {
    open spec fn fits(&self, constraints: Constraints) -> bool {
        true
    }

    proof fn lemma_round_trip(&self, constraints: Constraints, bits: Seq<bool>, pos: int) {
        lemma_int_round_trip(
            *self as i64,
            Some(u32::MIN as i64),
            Some(u32::MAX as i64),
            bits,
            pos,
        );
    }
}

/// Decoding inverts encoding for elements in a row.
pub proof fn lemma_elems_round_trip<T: APerRoundTrip>(
    s: Seq<T>,
    constraints: Constraints,
    bits: Seq<bool>,
    pos: int,
)
    requires
        forall|i: int| 0 <= i < s.len() ==> (#[trigger] s[i]).fits(constraints),
        elems_bits(s, constraints) is Ok,
        occurs_at(bits, pos, elems_bits(s, constraints)->Ok_0),
    ensures
        elems_parse::<T>(bits, pos, s.len(), constraints) == Ok::<(Seq<T::Model>, int), DecodeError>(
            (models_of(s), pos + elems_bits(s, constraints)->Ok_0.len()),
        ),
    decreases s.len(),
{
    if s.len() == 0 {
        assert(models_of(s) =~= Seq::<T::Model>::empty());
    } else {
        let front = s.drop_last();
        let head = elems_bits(front, constraints)->Ok_0;
        let tail = s.last().aper_bits(constraints)->Ok_0;
        lemma_occurs_split(bits, pos, head, tail);
        assert forall|i: int| 0 <= i < front.len() implies (#[trigger] front[i]).fits(
            constraints,
        ) by {
            assert(front[i] == s[i]);
        }
        lemma_elems_round_trip(front, constraints, bits, pos);
        s.last().lemma_round_trip(constraints, bits, pos + head.len());
        assert(models_of(s) =~= models_of(front).push(s.last().model()));
    }
}

impl<T: APerRoundTrip> APerRoundTrip for Vec<T> {
    /// There is a size constraint with an upper bound from 0 to 65534; where
    /// it fixes the number of elements, the sequence has that many; and the
    /// constraints of the elements fit each of them.
    open spec fn fits(&self, constraints: Constraints) -> bool {
        &&& constraints.size is Some
        &&& match constraints.size->0.max() {
            Some(v) => 0 <= v < 65535,
            None => true,
        }
        &&& fixed_size(constraints.size) is Some ==> fixed_size(constraints.size)->0
            == self@.len()
        &&& forall|i: int|
            0 <= i < self@.len() ==> (#[trigger] self@[i]).fits(element_constraints(constraints))
    }

    proof fn lemma_round_trip(&self, constraints: Constraints, bits: Seq<bool>, pos: int) {
        let el = element_constraints(constraints);
        let body = elems_bits(self@, el)->Ok_0;
        if fixed_size(constraints.size) is Some {
            lemma_elems_round_trip(self@, el, bits, pos);
        } else {
            lemma_occurs_split(bits, pos, length_bits(self@.len()), body);
            lemma_length_round_trip(self@.len(), bits, pos);
            lemma_elems_round_trip(self@, el, bits, pos + length_bits(self@.len()).len());
        }
    }
}

/// A bit string of fewer than eight bits, or of whole octets, decodes from
/// its bits on the wire to what it was.
proof fn lemma_string_round_trip(data: Seq<u8>, k: nat, bits: Seq<bool>, pos: int)
    requires
        data.len() == (k + 7) / 8,
        k < 8 || k % 8 == 0,
        occurs_at(bits, pos, wire_bits(data, k)),
    ensures
        string_at(bits, pos, k) == Ok::<(Seq<bool>, int), DecodeError>(
            (Seq::new(k, |i: int| number_bit(data, i)), pos + k),
        ),
{
    let wire = wire_bits(data, k);
    if k == 0 {
        assert(Seq::new(k, |i: int| number_bit(data, i)) =~= Seq::<bool>::empty());
    } else {
        let stored = stored_bits(bits, pos, k);
        let window = bits.subrange(pos, pos + k);
        assert(window == wire);
        assert(span_read(k) == k);
        assert(stored.len() == 8 * data.len());
        assert forall|i: int| 0 <= i < k implies stored[stored.len() - 1 - i] == number_bit(
            data,
            i,
        ) by {
            assert(wire[k - 1 - i] == bits_of(data)[8 * data.len() - 1 - i]);
        }
        assert(Seq::new(k, |i: int| stored[stored.len() - 1 - i]) =~= Seq::new(
            k,
            |i: int| number_bit(data, i),
        ));
    }
}

impl APerRoundTrip for BitString {
    /// There is a size constraint; where it fixes the number of bits, the
    /// string has that many; the string has as many bytes as its bits need;
    /// and it has fewer than eight bits or whole octets. (A longer string
    /// whose last octet is not full does not decode to what it was.)
    open spec fn fits(&self, constraints: Constraints) -> bool {
        &&& constraints.size is Some
        &&& fixed_bits(constraints.size->0) is Some ==> fixed_bits(constraints.size->0)->0
            == self.spec_len()
        &&& self.spec_data().len() == (self.spec_len() + 7) / 8
        &&& (self.spec_len() < 8 || self.spec_len() % 8 == 0)
    }

    proof fn lemma_round_trip(&self, constraints: Constraints, bits: Seq<bool>, pos: int) {
        let k = self.spec_len();
        let wire = wire_bits(self.spec_data(), k);
        if fixed_bits(constraints.size->0) is Some {
            lemma_string_round_trip(self.spec_data(), k, bits, pos);
        } else {
            lemma_occurs_split(bits, pos, length_bits(k), wire);
            lemma_length_round_trip(k, bits, pos);
            lemma_string_round_trip(self.spec_data(), k, bits, pos + length_bits(k).len());
        }
        assert(self.view() =~= Seq::new(k, |i: int| number_bit(self.spec_data(), i)));
    }
}

} // verus!
