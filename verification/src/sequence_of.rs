use crate::constraints::{Constraint, Constraints};
use crate::decode::{parse_length, APerDecode, DecodeError, Decoder};
use crate::encode::{encode_length, length_bits, APerEncode, EncodeError, Encoder};
use vstd::prelude::*;

verus! {

/// The number of elements that a size constraint fixes: its two bounds where
/// they are equal, an absent bound counting as 0. No size constraint, or one
/// with two different bounds, fixes no number.
pub open spec fn fixed_size(size: Option<Constraint>) -> Option<int> {
    match size {
        None => None,
        Some(c) => {
            let lo = match c.min() {
                Some(v) => v as int,
                None => 0,
            };
            let hi = match c.max() {
                Some(v) => v as int,
                None => 0,
            };
            if lo == hi {
                Some(hi)
            } else {
                None
            }
        },
    }
}

/// The constraints that the elements of a sequence are encoded under: the
/// value constraint of the sequence is the size constraint of each element.
pub open spec fn element_constraints(constraints: Constraints) -> Constraints {
    Constraints { value: None, size: constraints.value }
}

/// The encodings of the elements of `s` in a row, or the first reason why an
/// element does not encode.
pub open spec fn elems_bits<T: APerEncode>(s: Seq<T>, constraints: Constraints) -> Result<
    Seq<bool>,
    EncodeError,
>
    decreases s.len(),
{
    if s.len() == 0 {
        Ok(Seq::empty())
    } else {
        match elems_bits(s.drop_last(), constraints) {
            Err(e) => Err(e),
            Ok(front) => match s.last().aper_bits(constraints) {
                Err(e) => Err(e),
                Ok(last) => Ok(front + last),
            },
        }
    }
}

/// What `n` elements in a row at bit `pos` of `bits` decode to: the elements
/// and the position of the bit after the last one, or the first reason why an
/// element does not decode.
pub open spec fn elems_parse<T: APerDecode>(
    bits: Seq<bool>,
    pos: int,
    n: nat,
    constraints: Constraints,
) -> Result<(Seq<T::Model>, int), DecodeError>
    decreases n,
{
    if n == 0 {
        Ok((Seq::empty(), pos))
    } else {
        match elems_parse::<T>(bits, pos, (n - 1) as nat, constraints) {
            Err(e) => Err(e),
            Ok((front, mid)) => match T::aper_parse(bits, mid, constraints) {
                Err(e) => Err(e),
                Ok((last, next)) => Ok((front.push(last), next)),
            },
        }
    }
}

/// What the elements of `s` stand for.
pub open spec fn models_of<T: APerDecode>(s: Seq<T>) -> Seq<T::Model> {
    Seq::new(s.len(), |i: int| s[i].model())
}

/// Once an element does not encode, the sequence does not, for that reason.
pub proof fn lemma_elems_bits_fail<T: APerEncode>(s: Seq<T>, k: int, constraints: Constraints)
    requires
        0 <= k <= s.len(),
        elems_bits(s.take(k), constraints) is Err,
    ensures
        elems_bits(s, constraints) == elems_bits(s.take(k), constraints),
    decreases s.len() - k,
{
    if k == s.len() {
        assert(s.take(k) =~= s);
    } else {
        assert(s.take(k + 1).drop_last() =~= s.take(k));
        lemma_elems_bits_fail(s, k + 1, constraints);
    }
}

impl<T: APerEncode> APerEncode for Vec<T> {
    /// A `SEQUENCE OF` is the number of its elements as a length determinant,
    /// then the elements in a row. Where the size constraint fixes the
    /// number, the length determinant is left out.
    open spec fn aper_bits(&self, constraints: Constraints) -> Result<Seq<bool>, EncodeError> {
        let body = elems_bits(self@, element_constraints(constraints));
        if fixed_size(constraints.size) is Some {
            body
        } else if self@.len() >= 16384 {
            Err(EncodeError::NotImplemented)
        } else {
            match body {
                Err(e) => Err(e),
                Ok(b) => Ok(length_bits(self@.len()) + b),
            }
        }
    }

    open spec fn encode_constraints() -> Constraints {
        Constraints { value: None, size: None }
    }

    fn constraints() -> Constraints {
        Constraints { value: None, size: None }
    }

    fn to_aper(&self, constraints: Constraints) -> (r: Result<Encoder, EncodeError>) {
        let fixed = match constraints.size {
            None => false,
            Some(c) => {
                let lo = match c.min() {
                    Some(v) => v,
                    None => 0,
                };
                let hi = match c.max() {
                    Some(v) => v,
                    None => 0,
                };
                lo == hi
            },
        };
        let mut enc = if fixed {
            Encoder::new()
        } else {
            encode_length(self.len())?
        };
        let el_constrs = Constraints { value: None, size: constraints.value };
        let ghost head = enc.bits();
        assert(self@.take(0) =~= Seq::<T>::empty());
        assert(head =~= head + Seq::<bool>::empty());
        let mut i: usize = 0;
        while i < self.len()
            invariant
                i <= self.len(),
                enc.wf(),
                el_constrs == element_constraints(constraints),
                fixed == (fixed_size(constraints.size) is Some),
                !fixed ==> self@.len() < 16384 && head == length_bits(self@.len()),
                fixed ==> head == Seq::<bool>::empty(),
                elems_bits(self@.take(i as int), el_constrs) is Ok,
                enc.bits() == head + elems_bits(self@.take(i as int), el_constrs)->Ok_0,
            decreases self.len() - i,
        {
            assert(self@.take(i + 1).drop_last() =~= self@.take(i as int));
            match self[i].to_aper(el_constrs) {
                Ok(val) => {
                    enc.append(&val);
                    assert(enc.bits() =~= head + elems_bits(
                        self@.take(i + 1),
                        el_constrs,
                    )->Ok_0);
                },
                Err(e) => {
                    proof {
                        lemma_elems_bits_fail(self@, i + 1, el_constrs);
                    }
                    return Err(e);
                },
            }
            i += 1;
        }
        assert(self@.take(i as int) =~= self@);
        assert(fixed ==> enc.bits() =~= elems_bits(self@, el_constrs)->Ok_0);
        Ok(enc)
    }
}

impl<T: APerDecode> APerDecode for Vec<T> {
    type Model = Seq<T::Model>;

    open spec fn model(&self) -> Seq<T::Model> {
        models_of(self@)
    }

    /// A `SEQUENCE OF` needs a size constraint with an upper bound from 0 to
    /// 65534 (an absent bound counting as 0). Where the constraint fixes the
    /// number of elements, so many elements are decoded; else their number is
    /// decoded first, as a length determinant.
    open spec fn aper_parse(bits: Seq<bool>, pos: int, constraints: Constraints) -> Result<
        (Seq<T::Model>, int),
        DecodeError,
    > {
        match constraints.size {
            None => Err(DecodeError::MissingSizeConstraint),
            Some(c) => {
                let hi = match c.max() {
                    Some(v) => v as int,
                    None => 0,
                };
                if hi < 0 || hi >= 65535 {
                    Err(DecodeError::NotImplemented)
                } else {
                    match fixed_size(constraints.size) {
                        Some(n) => elems_parse::<T>(
                            bits,
                            pos,
                            n as nat,
                            element_constraints(constraints),
                        ),
                        None => match parse_length(bits, pos) {
                            Err(e) => Err(e),
                            Ok((n, start)) => elems_parse::<T>(
                                bits,
                                start,
                                n,
                                element_constraints(constraints),
                            ),
                        },
                    }
                }
            },
        }
    }

    open spec fn decode_constraints() -> Constraints {
        Constraints { value: None, size: None }
    }

    fn constraints() -> Constraints {
        Constraints { value: None, size: None }
    }

    /// Read a `Vec<T>` from an aligned PER encoding.
    fn from_aper(decoder: &mut Decoder<'_>, constraints: Constraints) -> (r: Result<
        Self,
        DecodeError,
    >) {
        let sz_constr = match constraints.size {
            None => {
                return Err(DecodeError::MissingSizeConstraint);
            },
            Some(c) => c,
        };
        let min_len: i64 = match sz_constr.min() {
            Some(v) => v,
            None => 0,
        };
        let max_len: i64 = match sz_constr.max() {
            Some(v) => v,
            None => 0,
        };
        if max_len < 0 || max_len >= 65535 {
            return Err(DecodeError::NotImplemented);
        }
        let len: usize = if max_len == min_len {
            max_len as usize
        } else {
            decoder.decode_length()?
        };
        let el_constrs = Constraints { value: None, size: constraints.value };
        let ghost bits = decoder.bits();
        let ghost start = decoder.pos();
        let ghost expected = Self::aper_parse(old(decoder).bits(), old(decoder).pos(), constraints);
        let mut content: Vec<T> = Vec::with_capacity(len);
        assert(models_of(content@) =~= Seq::<T::Model>::empty());
        let mut i: usize = 0;
        while i < len
            invariant
                i <= len,
                expected == elems_parse::<T>(bits, start, len as nat, el_constrs),
                expected == Self::aper_parse(old(decoder).bits(), old(decoder).pos(), constraints),
                decoder.wf(),
                decoder.data() == old(decoder).data(),
                bits == decoder.bits(),
                content@.len() == i,
                elems_parse::<T>(bits, start, i as nat, el_constrs) == Ok::<
                    (Seq<T::Model>, int),
                    DecodeError,
                >((models_of(content@), decoder.pos())),
            decreases len - i,
        {
            let ghost before = content@;
            match T::from_aper(decoder, el_constrs) {
                Ok(val) => {
                    content.push(val);
                    assert(models_of(content@) =~= models_of(before).push(val.model()));
                },
                Err(e) => {
                    proof {
                        lemma_elems_parse_fail::<T>(
                            bits,
                            start,
                            (i + 1) as nat,
                            len as nat,
                            el_constrs,
                        );
                    }
                    return Err(e);
                },
            }
            i += 1;
        }
        assert(models_of(content@) =~= content.model());
        Ok(content)
    }
}

/// Once an element does not decode, the sequence does not, for that reason.
pub proof fn lemma_elems_parse_fail<T: APerDecode>(
    bits: Seq<bool>,
    pos: int,
    k: nat,
    n: nat,
    constraints: Constraints,
)
    requires
        k <= n,
        elems_parse::<T>(bits, pos, k, constraints) is Err,
    ensures
        elems_parse::<T>(bits, pos, n, constraints) == elems_parse::<T>(bits, pos, k, constraints),
    decreases n - k,
{
    if k < n {
        lemma_elems_parse_fail::<T>(bits, pos, k + 1, n, constraints);
    }
}

} // verus!
