use vstd::arithmetic::power2::{lemma2_to64, lemma_pow2_unfold, pow2};
use vstd::prelude::*;

verus! {

/// Bit `i` of the byte `b`, where bit 0 is the most significant one.
pub open spec fn bit_of(b: u8, i: int) -> bool {
    (b >> ((7 - i) as u8)) & 1 == 1
}

/// The eight bits of a byte, most significant first.
pub open spec fn bits_of_byte(b: u8) -> Seq<bool> {
    Seq::new(8, |i: int| bit_of(b, i))
}

/// The bits of a byte sequence, in the order in which they go over the wire.
pub open spec fn bits_of(bytes: Seq<u8>) -> Seq<bool> {
    Seq::new(8 * bytes.len(), |i: int| bit_of(bytes[i / 8], i % 8))
}

/// A run of `n` zero bits.
pub open spec fn zero_bits(n: int) -> Seq<bool> {
    Seq::new(n as nat, |i: int| false)
}

/// Shifting a byte right by `s` moves each bit `s` places down and brings zeros
/// in at the top.
pub proof fn lemma_bit_shr(a: u8, s: u8, j: u8)
    by (bit_vector)
    requires
        s < 8,
        j < 8,
    ensures
        bit_of(a >> s, j as int) == (j >= s && bit_of(a, (j - s) as int)),
{
}

/// Shifting a byte left by `s` moves each bit `s` places up and brings zeros
/// in at the bottom.
pub proof fn lemma_bit_shl(a: u8, s: u8, j: u8)
    by (bit_vector)
    requires
        s < 8,
        j < 8,
    ensures
        bit_of(a << s, j as int) == (j + s < 8 && bit_of(a, (j + s) as int)),
{
}

/// A bit of `a | b` is set where it is set in `a` or in `b`.
pub proof fn lemma_bit_or(a: u8, b: u8, j: u8)
    by (bit_vector)
    requires
        j < 8,
    ensures
        bit_of(a | b, j as int) == (bit_of(a, j as int) || bit_of(b, j as int)),
{
}

/// A bit of `a & b` is set where it is set in `a` and in `b`.
pub proof fn lemma_bit_and(a: u8, b: u8, j: u8)
    by (bit_vector)
    requires
        j < 8,
    ensures
        bit_of(a & b, j as int) == (bit_of(a, j as int) && bit_of(b, j as int)),
{
}

/// `0xFF >> s` has its top `s` bits clear and the others set.
pub proof fn lemma_bit_low_mask(s: u8, j: u8)
    by (bit_vector)
    requires
        s < 8,
        j < 8,
    ensures
        bit_of(0xFFu8 >> s, j as int) == (j >= s),
{
}

/// Two bytes with the same eight bits are the same byte.
pub proof fn lemma_byte_by_bits(a: u8, b: u8)
    by (bit_vector)
    requires
        bit_of(a, 0) == bit_of(b, 0),
        bit_of(a, 1) == bit_of(b, 1),
        bit_of(a, 2) == bit_of(b, 2),
        bit_of(a, 3) == bit_of(b, 3),
        bit_of(a, 4) == bit_of(b, 4),
        bit_of(a, 5) == bit_of(b, 5),
        bit_of(a, 6) == bit_of(b, 6),
        bit_of(a, 7) == bit_of(b, 7),
    ensures
        a == b,
{
}

/// The number that a bit string spells, most significant bit first.
pub open spec fn bits_value(s: Seq<bool>) -> nat
    decreases s.len(),
{
    if s.len() == 0 {
        0
    } else {
        2 * bits_value(s.drop_last()) + if s.last() {
            1nat
        } else {
            0nat
        }
    }
}

/// The `n` lowest binary digits of `v`, most significant first.
pub open spec fn nat_bits(v: nat, n: nat) -> Seq<bool>
    decreases n,
{
    if n == 0 {
        Seq::empty()
    } else {
        nat_bits(v / 2, (n - 1) as nat).push(v % 2 == 1)
    }
}

/// `n` digits are `n` bits.
pub proof fn lemma_nat_bits_len(v: nat, n: nat)
    ensures
        nat_bits(v, n).len() == n,
    decreases n,
{
    if n > 0 {
        lemma_nat_bits_len(v / 2, (n - 1) as nat);
    }
}

/// A number below `2^n` is the value of its `n` digits.
pub proof fn lemma_bits_value_nat_bits(v: nat, n: nat)
    requires
        v < pow2(n),
    ensures
        bits_value(nat_bits(v, n)) == v,
    decreases n,
{
    lemma2_to64();
    if n > 0 {
        lemma_pow2_unfold(n);
        lemma_nat_bits_len(v / 2, (n - 1) as nat);
        lemma_bits_value_nat_bits(v / 2, (n - 1) as nat);
        let s = nat_bits(v, n);
        assert(s.drop_last() =~= nat_bits(v / 2, (n - 1) as nat));
    }
}

/// A bit string is the digits of its value.
pub proof fn lemma_nat_bits_bits_value(s: Seq<bool>)
    ensures
        nat_bits(bits_value(s), s.len()) == s,
        bits_value(s) < pow2(s.len()),
    decreases s.len(),
{
    lemma2_to64();
    if s.len() > 0 {
        lemma_pow2_unfold(s.len());
        lemma_nat_bits_bits_value(s.drop_last());
        assert(bits_value(s) / 2 == bits_value(s.drop_last()));
        assert(nat_bits(bits_value(s), s.len()) =~= s);
    } else {
        assert(nat_bits(bits_value(s), s.len()) =~= s);
    }
}

/// The value of two bit strings in a row: the first one's value moves up by
/// the length of the second.
pub proof fn lemma_bits_value_concat(a: Seq<bool>, b: Seq<bool>)
    ensures
        bits_value(a + b) == bits_value(a) * pow2(b.len()) + bits_value(b),
    decreases b.len(),
{
    lemma2_to64();
    if b.len() == 0 {
        assert(a + b =~= a);
    } else {
        lemma_pow2_unfold(b.len());
        lemma_bits_value_concat(a, b.drop_last());
        assert((a + b).drop_last() =~= a + b.drop_last());
        let x = bits_value(a);
        let p = pow2((b.len() - 1) as nat);
        assert(2 * (x * p) == x * (2 * p)) by (nonlinear_arith);
    }
}

/// The value of a bit string, split into its leading bit and the rest.
pub proof fn lemma_bits_value_head(s: Seq<bool>)
    requires
        s.len() >= 1,
    ensures
        bits_value(s) == (if s[0] {
            pow2((s.len() - 1) as nat)
        } else {
            0nat
        }) + bits_value(s.skip(1)),
        bits_value(s.skip(1)) < pow2((s.len() - 1) as nat),
{
    let head = s.take(1);
    assert(s =~= head + s.skip(1));
    lemma_bits_value_concat(head, s.skip(1));
    assert(head.drop_last().len() == 0);
    reveal_with_fuel(bits_value, 2);
    assert(bits_value(head) == if s[0] {
        1nat
    } else {
        0nat
    });
    lemma_nat_bits_bits_value(s.skip(1));
    let p = pow2((s.len() - 1) as nat);
    assert(1 * p == p && 0 * p == 0) by (nonlinear_arith);
}

/// Zero bits in front of a bit string do not change its value.
pub proof fn lemma_bits_value_zero_prefix(k: nat, s: Seq<bool>)
    ensures
        bits_value(zero_bits(k as int) + s) == bits_value(s),
{
    lemma_bits_value_concat(zero_bits(k as int), s);
    lemma_bits_value_zeros(k);
    let p = pow2(s.len());
    assert(0 * p == 0) by (nonlinear_arith);
}

/// Zero bits spell zero.
proof fn lemma_bits_value_zeros(k: nat)
    ensures
        bits_value(zero_bits(k as int)) == 0,
    decreases k,
{
    if k > 0 {
        lemma_bits_value_zeros((k - 1) as nat);
        assert(zero_bits(k as int).drop_last() =~= zero_bits(k - 1));
    }
}

/// The bits of a byte, from the lowest up, are the remainders of halving it
/// again and again.
proof fn lemma_bits_low_digits(b: u8)
    by (bit_vector)
    ensures
        bit_of(b, 7) == (b % 2 == 1),
        bit_of(b, 6) == (b / 2 % 2 == 1),
        bit_of(b, 5) == (b / 2 / 2 % 2 == 1),
        bit_of(b, 4) == (b / 2 / 2 / 2 % 2 == 1),
        bit_of(b, 3) == (b / 2 / 2 / 2 / 2 % 2 == 1),
        bit_of(b, 2) == (b / 2 / 2 / 2 / 2 / 2 % 2 == 1),
        bit_of(b, 1) == (b / 2 / 2 / 2 / 2 / 2 / 2 % 2 == 1),
        bit_of(b, 0) == (b / 2 / 2 / 2 / 2 / 2 / 2 / 2 % 2 == 1),
{
}

/// The bits of a byte are its eight binary digits.
pub proof fn lemma_byte_digits(b: u8)
    ensures
        bits_of_byte(b) == nat_bits(b as nat, 8),
        bits_value(bits_of_byte(b)) == b,
{
    lemma_bits_low_digits(b);
    lemma_nat_bits_len(b as nat, 8);
    reveal_with_fuel(nat_bits, 9);
    assert(bits_of_byte(b) =~= nat_bits(b as nat, 8));
    lemma2_to64();
    lemma_bits_value_nat_bits(b as nat, 8);
}

/// The bits of a byte sequence with one more byte are the old bits and then
/// the bits of the new byte.
pub proof fn lemma_bits_of_push(bytes: Seq<u8>, b: u8)
    ensures
        bits_of(bytes.push(b)) == bits_of(bytes) + bits_of_byte(b),
{
    let l = bits_of(bytes.push(b));
    let r = bits_of(bytes) + bits_of_byte(b);
    assert forall|p: int| 0 <= p < l.len() implies l[p] == r[p] by {
        if p < 8 * bytes.len() {
            assert(bytes.push(b)[p / 8] == bytes[p / 8]);
        } else {
            assert(bytes.push(b)[p / 8] == b);
        }
    }
    assert(l =~= r);
}

/// The bit sequence `s` moved `k` places towards its start: the first `k` bits
/// fall off, and `k` zero bits come in at the end.
pub open spec fn shift_left_bits(s: Seq<bool>, k: int) -> Seq<bool> {
    Seq::new(
        s.len(),
        |i: int|
            if i + k < s.len() {
                s[i + k]
            } else {
                false
            },
    )
}

/// What byte `i` holds after its sequence is shifted left by `k` bits,
/// `1 <= k <= 7`: its own low bits moved up, and the high bits of its
/// successor (if there is one) below them.
pub open spec fn shifted_byte(bytes: Seq<u8>, i: int, k: u8) -> u8 {
    let next = if i + 1 < bytes.len() {
        bytes[i + 1]
    } else {
        0u8
    };
    (bytes[i] << k) | (next >> ((8 - k) as u8))
}

/// The byte 0 has no bit set.
pub proof fn lemma_bit_zero(j: u8)
    by (bit_vector)
    requires
        j < 8,
    ensures
        !bit_of(0u8, j as int),
{
}

/// The bits of a shifted byte are those of the shifted bit sequence at its
/// place.
proof fn lemma_shifted_byte_bits(bytes: Seq<u8>, i: int, k: u8, j: int)
    requires
        0 <= i < bytes.len(),
        1 <= k <= 7,
        0 <= j < 8,
    ensures
        bit_of(shifted_byte(bytes, i, k), j) == shift_left_bits(bits_of(bytes), k as int)[8 * i
            + j],
{
    let next = if i + 1 < bytes.len() {
        bytes[i + 1]
    } else {
        0u8
    };
    let hi = bytes[i] << k;
    let lo = next >> ((8 - k) as u8);
    lemma_bit_or(hi, lo, j as u8);
    lemma_bit_shl(bytes[i], k, j as u8);
    lemma_bit_shr(next, (8 - k) as u8, j as u8);
    if j + k >= 8 {
        lemma_bit_zero((j + k - 8) as u8);
    }
}

/// Shifts the byte sequence left by `k` bits in place: the high `k` bits of
/// each byte move into the low `k` bits of the byte before it, and the low `k`
/// bits of the last byte become zero.
pub fn shift_bytes_left(bytes: &mut Vec<u8>, k: usize)
    requires
        k <= 7,
    ensures
        final(bytes).len() == old(bytes).len(),
        bits_of(final(bytes)@) == shift_left_bits(bits_of(old(bytes)@), k as int),
{
    let n = bytes.len();
    if k == 0 {
        assert(bits_of(bytes@) =~= shift_left_bits(bits_of(bytes@), 0));
        return ;
    }
    let s: u8 = k as u8;
    let mut i: usize = 0;
    while i < n
        invariant
            1 <= s <= 7,
            s == k,
            n == bytes.len(),
            n == old(bytes).len(),
            i <= n,
            forall|j: int| 0 <= j < i ==> bytes[j] == shifted_byte(old(bytes)@, j, s),
            forall|j: int| i <= j < n ==> bytes[j] == old(bytes)[j],
        decreases n - i,
    {
        let next: u8 = if i + 1 < n {
            bytes[i + 1]
        } else {
            0
        };
        let cur: u8 = bytes[i];
        bytes.set(i, (cur << s) | (next >> (8 - s)));
        i += 1;
    }
    proof {
        let before = bits_of(old(bytes)@);
        let after = bits_of(bytes@);
        assert forall|p: int| 0 <= p < after.len() implies after[p] == shift_left_bits(
            before,
            k as int,
        )[p] by {
            lemma_shifted_byte_bits(old(bytes)@, p / 8, s, p % 8);
        }
        assert(after =~= shift_left_bits(before, k as int));
    }
}

} // verus!
