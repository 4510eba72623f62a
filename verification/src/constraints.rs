use vstd::prelude::*;

verus! {

/// Leading bits of a short length determinant (one octet, `0xxxxxxx`).
pub const LENGTH_DET_SHORT: u8 = 0b0000_0000;

/// Leading bits of a long length determinant (two octets, `10xxxxxx xxxxxxxx`).
pub const LENGTH_DET_LONG: u8 = 0b1000_0000;

/// Leading bits of a fragmented length determinant (`11xxxxxx`).
pub const LENGTH_DET_FRAG: u8 = 0b1100_0000;

/// The bits of a short length determinant that hold the length.
pub const LENGTH_MASK_SHORT: u8 = 0b0111_1111;

/// The bits of the first octet of a long length determinant that hold the length.
pub const LENGTH_MASK_LONG: u8 = 0b0011_1111;

/// An interval that describes the limits on some value. Either bound may be
/// absent; with both absent the value is unbounded.
#[derive(Debug, Copy, Clone, PartialEq, Eq, Structural)]
pub struct Constraint {
    min: Option<i64>,
    max: Option<i64>,
}

impl Constraint {
    /// The lower bound, in contracts.
    pub closed spec fn lower(&self) -> Option<i64> {
        self.min
    }

    /// The upper bound, in contracts.
    pub closed spec fn upper(&self) -> Option<i64> {
        self.max
    }

    /// Construct a new `Constraint`.
    pub fn new(min: Option<i64>, max: Option<i64>) -> (c: Constraint)
        ensures
            c.lower() == min,
            c.upper() == max,
    {
        Constraint { min, max }
    }

    /// Get the lower bound.
    #[verifier::when_used_as_spec(lower)]
    pub fn min(&self) -> (r: Option<i64>)
        ensures
            r == self.lower(),
    {
        self.min
    }

    /// Get the upper bound.
    #[verifier::when_used_as_spec(upper)]
    pub fn max(&self) -> (r: Option<i64>)
        ensures
            r == self.upper(),
    {
        self.max
    }

    /// Two constraints with the same bounds are the same constraint.
    pub proof fn lemma_by_bounds(a: Constraint, b: Constraint)
        requires
            a.lower() == b.lower(),
            a.upper() == b.upper(),
        ensures
            a == b,
    {
    }
}

/// A pair of `Constraint`s: one on the value of a type (where that applies)
/// and one on its encoded size. A value is unconstrained when both are absent.
#[derive(Debug, Copy, Clone, PartialEq, Eq, Structural)]
pub struct Constraints {
    pub value: Option<Constraint>,
    pub size: Option<Constraint>,
}

/// No constraint on the value and none on the size.
pub fn unconstrained() -> (c: Constraints)
    ensures
        c == (Constraints { value: None, size: None }),
{
    Constraints { value: None, size: None }
}

} // verus!
