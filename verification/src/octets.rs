use crate::bits::{
    bits_of, bits_of_byte, bits_value, lemma_bits_of_push, lemma_bits_value_concat,
    lemma_bits_value_nat_bits, lemma_bits_value_zero_prefix, lemma_byte_digits,
    lemma_nat_bits_bits_value, lemma_nat_bits_len, nat_bits, zero_bits,
};
use byteorder::{BigEndian, ByteOrder};
use vstd::arithmetic::power2::{
    lemma2_to64, lemma_pow2_strictly_increases, lemma_pow2_unfold, pow2,
};
use vstd::prelude::*;

verus! {

/// The unsigned number that a byte sequence spells, most significant byte
/// first.
pub open spec fn be_value(bytes: Seq<u8>) -> nat
    decreases bytes.len(),
{
    if bytes.len() == 0 {
        0
    } else {
        256 * be_value(bytes.drop_last()) + bytes.last() as nat
    }
}

/// The signed number that the unsigned value `u` of `nbytes` bytes stands for
/// in two's complement.
pub open spec fn twos_value(u: nat, nbytes: nat) -> int {
    if u < pow2((8 * nbytes - 1) as nat) {
        u as int
    } else {
        u - pow2(8 * nbytes)
    }
}

/// The unsigned value of the `nbytes` bytes that hold `v` in two's complement.
pub open spec fn twos_code(v: int, nbytes: nat) -> nat {
    if v >= 0 {
        v as nat
    } else {
        (v + pow2(8 * nbytes)) as nat
    }
}

/// The number of binary digits of `x`: 0 for 0, else the position of its
/// highest set bit, counted from 1.
pub open spec fn bit_width(x: nat) -> nat
    decreases x,
{
    if x == 0 {
        0
    } else {
        1 + bit_width(x / 2)
    }
}

/// The least number of octets, at least one, that hold `x` as an unsigned
/// number.
pub open spec fn unsigned_octets(x: nat) -> nat {
    if x == 0 {
        1
    } else {
        (bit_width(x) + 7) / 8
    }
}

/// The least number of octets that hold `v` in two's complement.
pub open spec fn signed_octets(v: int) -> nat {
    if v >= 0 {
        bit_width(v as nat) / 8 + 1
    } else {
        bit_width((-v - 1) as nat) / 8 + 1
    }
}

/// The value of a byte sequence is the value of its bits.
pub proof fn lemma_be_value_bits(bytes: Seq<u8>)
    ensures
        be_value(bytes) == bits_value(bits_of(bytes)),
    decreases bytes.len(),
{
    if bytes.len() == 0 {
        assert(bits_of(bytes).len() == 0);
    } else {
        let front = bytes.drop_last();
        lemma_be_value_bits(front);
        assert(bytes =~= front.push(bytes.last()));
        lemma_bits_of_push(front, bytes.last());
        lemma_bits_value_concat(bits_of(front), bits_of_byte(bytes.last()));
        lemma_byte_digits(bytes.last());
        lemma2_to64();
        let x = be_value(front);
        assert(x * 256 == 256 * x) by (nonlinear_arith);
    }
}

/// `x` has no more digits than its width says, and no fewer.
pub proof fn lemma_bit_width_bounds(x: nat)
    ensures
        x < pow2(bit_width(x)),
        x > 0 ==> pow2((bit_width(x) - 1) as nat) <= x,
    decreases x,
{
    lemma2_to64();
    if x > 0 {
        lemma_bit_width_bounds(x / 2);
        lemma_pow2_unfold(bit_width(x));
        if x / 2 > 0 {
            lemma_pow2_unfold((bit_width(x) - 1) as nat);
        }
    }
}

/// A number below `2^k` has at most `k` digits.
pub proof fn lemma_bit_width_le(x: nat, k: nat)
    requires
        x < pow2(k),
    ensures
        bit_width(x) <= k,
{
    lemma_bit_width_bounds(x);
    if bit_width(x) > k {
        if k < bit_width(x) - 1 {
            lemma_pow2_strictly_increases(k, (bit_width(x) - 1) as nat);
        }
    }
}

/// Powers of two grow with their exponent.
pub proof fn lemma_pow2_le(a: nat, b: nat)
    requires
        a <= b,
    ensures
        pow2(a) <= pow2(b),
{
    if a < b {
        lemma_pow2_strictly_increases(a, b);
    }
}

/// The bits of a byte sequence are the digits of its value.
pub proof fn lemma_octets_bits(bytes: Seq<u8>)
    ensures
        bits_of(bytes) == nat_bits(be_value(bytes), 8 * bytes.len()),
        be_value(bytes) < pow2(8 * bytes.len()),
{
    lemma_be_value_bits(bytes);
    lemma_nat_bits_bits_value(bits_of(bytes));
}

/// A number below `2^n`, written with `k` more digits, starts with `k` zeros.
pub proof fn lemma_nat_bits_widen(v: nat, n: nat, k: nat)
    requires
        v < pow2(n),
    ensures
        nat_bits(v, n + k) == zero_bits(k as int) + nat_bits(v, n),
{
    let s = zero_bits(k as int) + nat_bits(v, n);
    lemma_nat_bits_len(v, n);
    lemma_bits_value_zero_prefix(k, nat_bits(v, n));
    lemma_bits_value_nat_bits(v, n);
    lemma_nat_bits_bits_value(s);
}

/// The `nbytes` octets that spell `n`, most significant first.
pub(crate) fn unsigned_be_octets(n: u64, nbytes: usize) -> (r: Vec<u8>)
    requires
        1 <= nbytes <= 8,
        n < pow2(8 * nbytes as nat),
    ensures
        r@.len() == nbytes,
        be_value(r@) == n,
        bits_of(r@) == nat_bits(n as nat, 8 * nbytes as nat),
{
    let mut buf: Vec<u8> = vec![0u8; nbytes];
    write_uint_be(&mut buf, n, nbytes);
    proof {
        assert(buf@.take(nbytes as int) =~= buf@);
        lemma_octets_bits(buf@);
    }
    buf
}

/// The `nbytes` octets that hold `n` in two's complement, most significant
/// first.
pub(crate) fn signed_be_octets(n: i64, nbytes: usize) -> (r: Vec<u8>)
    requires
        1 <= nbytes <= 8,
        -pow2((8 * nbytes - 1) as nat) <= n < pow2((8 * nbytes - 1) as nat),
    ensures
        r@.len() == nbytes,
        be_value(r@) == twos_code(n as int, nbytes as nat),
        bits_of(r@) == nat_bits(twos_code(n as int, nbytes as nat), 8 * nbytes as nat),
{
    let mut buf: Vec<u8> = vec![0u8; nbytes];
    write_int_be(&mut buf, n, nbytes);
    proof {
        assert(buf@.take(nbytes as int) =~= buf@);
        lemma_octets_bits(buf@);
    }
    buf
}

/// The number of binary digits of `x`.
pub fn width_of(x: u64) -> (n: usize)
    ensures
        n == bit_width(x as nat),
        n <= 64,
{
    let mut rest: u64 = x;
    let mut n: usize = 0;
    proof {
        lemma2_to64();
        lemma_bit_width_le(x as nat, 64);
    }
    while rest > 0
        invariant
            n + bit_width(rest as nat) == bit_width(x as nat),
            bit_width(x as nat) <= 64,
        decreases rest,
    {
        rest = rest / 2;
        n += 1;
    }
    n
}

/// `BigEndian::read_uint` of byteorder: the unsigned number that the first
/// `nbytes` bytes of `buf` spell, most significant byte first. The call
/// panics unless `1 <= nbytes <= 8` and `buf` holds that many bytes.
/// The contract is byteorder's word and is not proved here.
#[verifier::external_body]
pub(crate) fn read_uint_be(buf: &Vec<u8>, nbytes: usize) -> (r: u64)
    requires
        1 <= nbytes <= 8,
        nbytes <= buf.len(),
    ensures
        r == be_value(buf@.take(nbytes as int)),
{
    BigEndian::read_uint(buf, nbytes)
}

/// `BigEndian::read_int` of byteorder: the first `nbytes` bytes of `buf`,
/// most significant byte first, read as a number in two's complement. The
/// call panics unless `1 <= nbytes <= 8` and `buf` holds that many bytes.
/// The contract is byteorder's word and is not proved here.
#[verifier::external_body]
pub(crate) fn read_int_be(buf: &Vec<u8>, nbytes: usize) -> (r: i64)
    requires
        1 <= nbytes <= 8,
        nbytes <= buf.len(),
    ensures
        r == twos_value(be_value(buf@.take(nbytes as int)), nbytes as nat),
{
    BigEndian::read_int(buf, nbytes)
}

/// `BigEndian::write_uint` of byteorder: fills the first `nbytes` bytes of
/// `buf` with the number `n`, most significant byte first, and leaves the
/// rest of `buf` as it was. The call panics unless `nbytes <= 8`, `n` fits
/// into `nbytes` bytes (at least one) and `buf` holds that many bytes.
/// The contract is byteorder's word and is not proved here.
#[verifier::external_body]
pub(crate) fn write_uint_be(buf: &mut Vec<u8>, n: u64, nbytes: usize)
    requires
        1 <= nbytes <= 8,
        nbytes <= old(buf).len(),
        n < pow2(8 * nbytes as nat),
    ensures
        final(buf).len() == old(buf).len(),
        be_value(final(buf)@.take(nbytes as int)) == n,
        final(buf)@.skip(nbytes as int) == old(buf)@.skip(nbytes as int),
{
    BigEndian::write_uint(buf, n, nbytes)
}

/// `BigEndian::write_int` of byteorder: fills the first `nbytes` bytes of
/// `buf` with the number `n` in two's complement, most significant byte
/// first, and leaves the rest of `buf` as it was. The call panics unless
/// `1 <= nbytes <= 8` and `buf` holds that many bytes; it is made only with
/// an `n` that fits into `nbytes` bytes.
/// The contract is byteorder's word and is not proved here.
#[verifier::external_body]
pub(crate) fn write_int_be(buf: &mut Vec<u8>, n: i64, nbytes: usize)
    requires
        1 <= nbytes <= 8,
        nbytes <= old(buf).len(),
        -pow2((8 * nbytes - 1) as nat) <= n < pow2((8 * nbytes - 1) as nat),
    ensures
        final(buf).len() == old(buf).len(),
        be_value(final(buf)@.take(nbytes as int)) == twos_code(n as int, nbytes as nat),
        final(buf)@.skip(nbytes as int) == old(buf)@.skip(nbytes as int),
{
    BigEndian::write_int(buf, n, nbytes)
}

} // verus!
