use crate::bit_string::BitString;
use vstd::prelude::*;

verus! {

/// A preamble that describes the properties of the sequence type it precedes.
pub type SequencePreamble = BitString;

} // verus!
