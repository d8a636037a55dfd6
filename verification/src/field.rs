//! Elements of the base field, and the kinds of value that are made of them.
//!
//! A field element is a residue modulo the 253-bit prime [`modulus`], held in
//! two 128-bit limbs. Of the field's arithmetic this library needs the additive
//! group only.

use vstd::prelude::*;

verus! {

/// The upper 128 bits of the field's modulus.
pub const MODULUS_HIGH: u128 = 0x12ab655e9a2ca55660b44d1e5c37b001;

/// The lower 128 bits of the field's modulus.
pub const MODULUS_LOW: u128 = 0x59aa76fed00000010a11800000000001;

/// The prime that the field counts modulo.
pub open spec fn modulus() -> int {
    0x12ab655e9a2ca55660b44d1e5c37b00159aa76fed00000010a11800000000001int
}

/// The number that two limbs stand for.
pub open spec fn limbs_value(high: u128, low: u128) -> int {
    high * 0x1_0000_0000_0000_0000_0000_0000_0000_0000int + low
}

/// The additive inverse of a residue.
pub open spec fn inverse(x: int) -> int {
    if x == 0 {
        0
    } else {
        modulus() - x
    }
}

/// The sum of two residues.
pub open spec fn sum(x: int, y: int) -> int {
    if x + y < modulus() {
        x + y
    } else {
        x + y - modulus()
    }
}

/// An element of the base field.
#[derive(Clone, Copy, Debug, PartialEq, Eq, Structural)]
pub struct Field {
    high: u128,
    low: u128,
}

impl View for Field {
    type V = int;

    closed spec fn view(&self) -> int {
        limbs_value(self.high, self.low)
    }
}

impl Field {
    #[verifier::type_invariant]
    spec fn reduced(self) -> bool {
        limbs_value(self.high, self.low) < modulus()
    }

    /// The zero of the field.
    pub fn zero() -> (zero: Field)
        ensures
            zero@ == 0,
    {
        Field { high: 0, low: 0 }
    }

    /// The field element of a small number.
    pub fn from_u128(value: u128) -> (element: Field)
        ensures
            element@ == value,
    {
        Field { high: 0, low: value }
    }

    /// The field element with the given limbs, if they stand for a number
    /// below the modulus.
    pub fn from_limbs(high: u128, low: u128) -> (out: Option<Field>)
        ensures
            out is Some <==> limbs_value(high, low) < modulus(),
            out matches Some(element) ==> element@ == limbs_value(high, low),
    {
        if high < MODULUS_HIGH || (high == MODULUS_HIGH && low < MODULUS_LOW) {
            Some(Field { high, low })
        } else {
            None
        }
    }

    /// The limbs of the residue, upper first.
    pub fn limbs(&self) -> (limbs: (u128, u128))
        ensures
            limbs_value(limbs.0, limbs.1) == self@,
            0 <= self@ < modulus(),
    {
        proof {
            use_type_invariant(self);
        }
        (self.high, self.low)
    }

    /// The additive inverse.
    pub fn negate(&self) -> (negated: Field)
        ensures
            negated@ == inverse(self@),
    {
        proof {
            use_type_invariant(self);
        }
        if self.high == 0 && self.low == 0 {
            Field { high: 0, low: 0 }
        } else if self.low <= MODULUS_LOW {
            Field { high: MODULUS_HIGH - self.high, low: MODULUS_LOW - self.low }
        } else {
            Field {
                high: MODULUS_HIGH - self.high - 1,
                low: MODULUS_LOW + (u128::MAX - self.low) + 1,
            }
        }
    }

    /// The sum in the field.
    pub fn add(&self, other: &Field) -> (total: Field)
        ensures
            total@ == sum(self@, other@),
    {
        proof {
            use_type_invariant(self);
            use_type_invariant(other);
        }
        let (low, carry): (u128, u128) = if self.low <= u128::MAX - other.low {
            (self.low + other.low, 0)
        } else {
            (self.low - (u128::MAX - other.low) - 1, 1)
        };
        let high: u128 = self.high + other.high + carry;
        if high < MODULUS_HIGH || (high == MODULUS_HIGH && low < MODULUS_LOW) {
            Field { high, low }
        } else if low >= MODULUS_LOW {
            Field { high: high - MODULUS_HIGH, low: low - MODULUS_LOW }
        } else {
            Field { high: high - MODULUS_HIGH - 1, low: low + (u128::MAX - MODULUS_LOW) + 1 }
        }
    }

    /// The difference in the field.
    pub fn subtract(&self, other: &Field) -> (difference: Field)
        ensures
            difference@ == sum(self@, inverse(other@)),
    {
        let negated = other.negate();
        self.add(&negated)
    }
}

/// The negation undoes itself, and an element and its negation sum to zero.
pub proof fn lemma_inverse(x: int)
    requires
        0 <= x < modulus(),
    ensures
        0 <= inverse(x) < modulus(),
        inverse(inverse(x)) == x,
        sum(x, inverse(x)) == 0,
        inverse(x) == (modulus() - x) % modulus(),
{
}

/// The sum of two residues is the residue of their sum.
pub proof fn lemma_sum(x: int, y: int)
    requires
        0 <= x < modulus(),
        0 <= y < modulus(),
    ensures
        0 <= sum(x, y) < modulus(),
        sum(x, y) == (x + y) % modulus(),
        sum(x, y) == sum(y, x),
{
}

/// An element of the group of the curve, held by its affine x-coordinate.
/// Negating a point of a twisted Edwards curve negates that coordinate and
/// leaves the other.
#[derive(Clone, Copy, Debug, PartialEq, Eq, Structural)]
pub struct Group {
    pub x: Field,
}

impl Group {
    /// The inverse of the point.
    pub fn negate(&self) -> (negated: Group)
        ensures
            negated.x@ == inverse(self.x@),
    {
        Group { x: self.x.negate() }
    }
}

/// An element of the scalar field, carried as two limbs. No operation of this
/// library computes with it.
#[derive(Clone, Copy, Debug, PartialEq, Eq, Structural)]
pub struct Scalar {
    pub high: u128,
    pub low: u128,
}

/// An account address, carried as the two limbs of its coordinate. No
/// operation of this library computes with it.
#[derive(Clone, Copy, Debug, PartialEq, Eq, Structural)]
pub struct AddressValue {
    pub high: u128,
    pub low: u128,
}

} // verus!
