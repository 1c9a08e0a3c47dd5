//! Bit constraints: which bits of a witness value may be set.

use crate::text::{hexadecimal, hexadecimal_text};
use vstd::prelude::*;

verus! {

/// A restriction of a value to the bits of a mask: a value meets it if it has
/// no bit set outside the mask.
#[derive(Clone, Copy, Debug, PartialEq, Eq, Structural)]
pub struct BitConstraint {
    pub mask: u64,
}

impl BitConstraint {
    /// The constraint that allows exactly the bits of `mask`.
    pub fn from_mask(mask: u64) -> (r: Self)
        ensures
            r.mask == mask,
    {
        BitConstraint { mask }
    }

    /// The constraint that allows the bits `0` to `max_bit`.
    pub fn from_max_bit(max_bit: u64) -> (r: Self)
        requires
            max_bit < 64,
        ensures
            r.mask == (u64::MAX >> ((63 - max_bit) as u64)),
    {
        BitConstraint { mask: u64::MAX >> (63 - max_bit) }
    }

    pub fn mask(&self) -> (r: u64)
        ensures
            r == self.mask,
    {
        self.mask
    }

    /// Whether `value` has no bit set outside the mask.
    pub open spec fn allows(self, value: u64) -> bool {
        value & !self.mask == 0
    }

    /// Whether `value` has no bit set outside the mask.
    pub fn is_met_by(&self, value: u64) -> (r: bool)
        ensures
            r == self.allows(value),
    {
        value & !self.mask == 0
    }

    /// The constraint met by exactly the values that meet both `self` and `other`.
    pub fn conjunction(&self, other: &BitConstraint) -> (r: BitConstraint)
        ensures
            r.mask == self.mask & other.mask,
            forall|v: u64| r.allows(v) <==> self.allows(v) && other.allows(v),
    {
        let r = BitConstraint { mask: self.mask & other.mask };
        proof {
            let a = self.mask;
            let b = other.mask;
            assert forall|v: u64| r.allows(v) <==> self.allows(v) && other.allows(v) by {
                assert((v & !(a & b) == 0) <==> (v & !a == 0 && v & !b == 0)) by (bit_vector);
            }
        }
        r
    }

    /// The mask in hexadecimal notation.
    pub open spec fn text(self) -> Seq<char> {
        "0x"@ + hexadecimal_text(self.mask as nat)
    }

    /// The mask in hexadecimal notation.
    pub fn to_string(&self) -> (r: String)
        ensures
            r@ == self.text(),
    {
        let mut out = String::from_str("0x");
        out.append(hexadecimal(self.mask).as_str());
        out
    }
}

/// What is known about the bits of each witness.
pub trait BitConstraintSet {
    /// The constraint known for the witness `id`, if any.
    spec fn constraint_of(&self, id: int) -> Option<BitConstraint>;

    /// The number of witnesses the set knows of.
    spec fn witness_count(&self) -> nat;

    /// The constraint known for the witness `id`, if any.
    fn bit_constraint(&self, id: usize) -> (r: Option<BitConstraint>)
        requires
            id < self.witness_count(),
        ensures
            r == self.constraint_of(id as int),
    ;
}

} // verus!
