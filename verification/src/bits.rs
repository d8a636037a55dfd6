//! Values of bit sequences.
//!
//! A sequence of booleans stands for an integer in two ways: least significant
//! bit first (the order in which integers hold their wires) and most
//! significant bit first (the order in which division and exponentiation walk
//! them). This module defines both readings and proves the facts about them
//! that the arithmetic gadgets rest on.

use vstd::prelude::*;

verus! {

/// Two to the power `n`.
pub open spec fn weight(n: nat) -> nat
    decreases n,
{
    if n == 0 {
        1
    } else {
        2 * weight((n - 1) as nat)
    }
}

/// The number that a bit contributes at position zero.
pub open spec fn bit(b: bool) -> nat {
    if b {
        1
    } else {
        0
    }
}

/// The unsigned value of `bits`, least significant bit first.
pub open spec fn unsigned_value(bits: Seq<bool>) -> nat
    decreases bits.len(),
{
    if bits.len() == 0 {
        0
    } else {
        unsigned_value(bits.drop_last()) + if bits.last() {
            weight((bits.len() - 1) as nat)
        } else {
            0
        }
    }
}

/// The two's complement value of `bits`, least significant bit first: the last
/// bit counts negatively.
pub open spec fn signed_value(bits: Seq<bool>) -> int {
    if bits.len() == 0 {
        0
    } else {
        unsigned_value(bits.drop_last()) - if bits.last() {
            weight((bits.len() - 1) as nat) as int
        } else {
            0
        }
    }
}

/// The value of `bits` under the given signedness.
pub open spec fn value_of(bits: Seq<bool>, signed: bool) -> int {
    if signed {
        signed_value(bits)
    } else {
        unsigned_value(bits) as int
    }
}

/// The unsigned value of `bits`, most significant bit first.
pub open spec fn leading_value(bits: Seq<bool>) -> nat
    decreases bits.len(),
{
    if bits.len() == 0 {
        0
    } else {
        2 * leading_value(bits.drop_last()) + bit(bits.last())
    }
}

/// Every bit flipped.
pub open spec fn complement(bits: Seq<bool>) -> Seq<bool> {
    Seq::new(bits.len(), |i: int| !bits[i])
}

pub proof fn lemma_weight_positive(n: nat)
    ensures
        weight(n) > 0,
    decreases n,
{
    if n > 0 {
        lemma_weight_positive((n - 1) as nat);
    }
}

pub proof fn lemma_weight_adds(a: nat, b: nat)
    ensures
        weight(a + b) == weight(a) * weight(b),
    decreases b,
{
    if b == 0 {
        assert(weight(a) * 1 == weight(a)) by (nonlinear_arith);
    } else {
        lemma_weight_adds(a, (b - 1) as nat);
        let x = weight(a);
        let y = weight((b - 1) as nat);
        assert(weight(a + b) == 2 * weight((a + b - 1) as nat));
        assert(2 * (x * y) == x * (2 * y)) by (nonlinear_arith);
    }
}

pub proof fn lemma_weight_monotonic(a: nat, b: nat)
    requires
        a <= b,
    ensures
        weight(a) <= weight(b),
    decreases b,
{
    if a < b {
        lemma_weight_monotonic(a, (b - 1) as nat);
    }
}

/// The powers of two at the widths of the integer types.
pub proof fn lemma_weight_values()
    ensures
        weight(7) == 0x80,
        weight(8) == 0x100,
        weight(15) == 0x8000,
        weight(16) == 0x1_0000,
        weight(31) == 0x8000_0000,
        weight(32) == 0x1_0000_0000,
        weight(63) == 0x8000_0000_0000_0000,
        weight(64) == 0x1_0000_0000_0000_0000,
        weight(127) == 0x8000_0000_0000_0000_0000_0000_0000_0000,
        weight(128) == 0x1_0000_0000_0000_0000_0000_0000_0000_0000,
{
    assert(weight(8) == 0x100 && weight(7) == 0x80) by {
        reveal_with_fuel(weight, 9);
    }
    lemma_weight_adds(8, 8);
    assert(weight(16) == 0x1_0000) by (nonlinear_arith)
        requires
            weight(8) == 0x100,
            weight(16) == weight(8) * weight(8),
    ;
    lemma_weight_adds(16, 16);
    assert(weight(32) == 0x1_0000_0000) by (nonlinear_arith)
        requires
            weight(16) == 0x1_0000,
            weight(32) == weight(16) * weight(16),
    ;
    lemma_weight_adds(32, 32);
    assert(weight(64) == 0x1_0000_0000_0000_0000) by (nonlinear_arith)
        requires
            weight(32) == 0x1_0000_0000,
            weight(64) == weight(32) * weight(32),
    ;
    lemma_weight_adds(64, 64);
    assert(weight(128) == 0x1_0000_0000_0000_0000_0000_0000_0000_0000) by (nonlinear_arith)
        requires
            weight(64) == 0x1_0000_0000_0000_0000,
            weight(128) == weight(64) * weight(64),
    ;
    assert(weight(16) == 2 * weight(15));
    assert(weight(32) == 2 * weight(31));
    assert(weight(64) == 2 * weight(63));
    assert(weight(128) == 2 * weight(127));
}

/// An unsigned value of `n` bits is below two to the `n`.
pub proof fn lemma_unsigned_bound(bits: Seq<bool>)
    ensures
        unsigned_value(bits) < weight(bits.len()),
    decreases bits.len(),
{
    if bits.len() > 0 {
        lemma_unsigned_bound(bits.drop_last());
    }
}

/// A two's complement value of `n` bits lies in `[-2^(n-1), 2^(n-1))`.
pub proof fn lemma_signed_bound(bits: Seq<bool>)
    requires
        bits.len() > 0,
    ensures
        -weight((bits.len() - 1) as nat) <= signed_value(bits) < weight((bits.len() - 1) as nat),
        signed_value(bits) == unsigned_value(bits) - if bits.last() {
            weight(bits.len()) as int
        } else {
            0
        },
        signed_value(bits) < 0 <==> bits.last(),
{
    lemma_unsigned_bound(bits.drop_last());
}

/// The last bit is set exactly when the unsigned value reaches the upper half.
pub proof fn lemma_top_bit(bits: Seq<bool>)
    requires
        bits.len() > 0,
    ensures
        bits.last() <==> unsigned_value(bits) >= weight((bits.len() - 1) as nat),
        !bits.last() ==> unsigned_value(bits.drop_last()) == unsigned_value(bits),
{
    lemma_unsigned_bound(bits.drop_last());
}

pub proof fn lemma_unsigned_push(bits: Seq<bool>, b: bool)
    ensures
        unsigned_value(bits.push(b)) == unsigned_value(bits) + if b {
            weight(bits.len())
        } else {
            0
        },
{
    assert(bits.push(b).drop_last() =~= bits);
}

/// The value of a concatenation: the second part counts from the length of
/// the first.
pub proof fn lemma_unsigned_concat(low: Seq<bool>, high: Seq<bool>)
    ensures
        unsigned_value(low + high) == unsigned_value(low) + weight(low.len()) * unsigned_value(
            high,
        ),
    decreases high.len(),
{
    if high.len() == 0 {
        assert(low + high =~= low);
        assert(weight(low.len()) * 0 == 0) by (nonlinear_arith);
    } else {
        let rest = high.drop_last();
        lemma_unsigned_concat(low, rest);
        assert((low + high).drop_last() =~= low + rest);
        lemma_weight_adds(low.len(), rest.len());
        let w = weight(low.len());
        let r = unsigned_value(rest);
        let t = weight(rest.len());
        if high.last() {
            assert(w * (r + t) == w * r + w * t) by (nonlinear_arith);
        }
    }
}

/// The value in terms of the first bit and the rest.
pub proof fn lemma_unsigned_first(bits: Seq<bool>)
    requires
        bits.len() > 0,
    ensures
        unsigned_value(bits) == bit(bits[0]) + 2 * unsigned_value(bits.drop_first()),
{
    let first = seq![bits[0]];
    assert(first + bits.drop_first() =~= bits);
    lemma_unsigned_concat(first, bits.drop_first());
    assert(first.drop_last() =~= Seq::<bool>::empty());
    assert(unsigned_value(first) == bit(bits[0])) by {
        reveal_with_fuel(unsigned_value, 2);
    }
    assert(weight(1) == 2) by {
        reveal_with_fuel(weight, 2);
    }
}

/// Flipping every bit mirrors the value in `[0, 2^n)`.
pub proof fn lemma_complement(bits: Seq<bool>)
    ensures
        complement(bits).len() == bits.len(),
        unsigned_value(complement(bits)) + unsigned_value(bits) + 1 == weight(bits.len()),
    decreases bits.len(),
{
    if bits.len() > 0 {
        lemma_complement(bits.drop_last());
        assert(complement(bits).drop_last() =~= complement(bits.drop_last()));
    }
}

/// A sequence of zeros has the value zero.
pub proof fn lemma_zeros(bits: Seq<bool>)
    requires
        forall|i: int| 0 <= i < bits.len() ==> !bits[i],
    ensures
        unsigned_value(bits) == 0,
    decreases bits.len(),
{
    if bits.len() > 0 {
        lemma_zeros(bits.drop_last());
    }
}

/// Only the sequence of zeros has the value zero.
pub proof fn lemma_zero_value(bits: Seq<bool>)
    requires
        unsigned_value(bits) == 0,
    ensures
        forall|i: int| 0 <= i < bits.len() ==> !bits[i],
    decreases bits.len(),
{
    if bits.len() > 0 {
        lemma_weight_positive((bits.len() - 1) as nat);
        lemma_zero_value(bits.drop_last());
        assert forall|i: int| 0 <= i < bits.len() implies !bits[i] by {
            if i < bits.len() - 1 {
                assert(bits.drop_last()[i] == bits[i]);
            }
        }
    }
}

/// Two sequences of one length with one unsigned value are the same sequence.
pub proof fn lemma_unsigned_injective(a: Seq<bool>, b: Seq<bool>)
    requires
        a.len() == b.len(),
        unsigned_value(a) == unsigned_value(b),
    ensures
        a == b,
    decreases a.len(),
{
    if a.len() > 0 {
        lemma_unsigned_bound(a.drop_last());
        lemma_unsigned_bound(b.drop_last());
        lemma_unsigned_injective(a.drop_last(), b.drop_last());
        assert(a =~= a.drop_last().push(a.last()));
        assert(b =~= b.drop_last().push(b.last()));
    } else {
        assert(a =~= b);
    }
}

/// Two sequences of one length with one two's complement value are the same
/// sequence.
pub proof fn lemma_signed_injective(a: Seq<bool>, b: Seq<bool>)
    requires
        a.len() == b.len(),
        signed_value(a) == signed_value(b),
    ensures
        a == b,
{
    if a.len() > 0 {
        lemma_signed_bound(a);
        lemma_signed_bound(b);
        lemma_unsigned_injective(a, b);
    } else {
        assert(a =~= b);
    }
}

/// Reading most significant bit first is reading the reversed sequence least
/// significant bit first.
pub proof fn lemma_leading_is_reversed(bits: Seq<bool>)
    ensures
        leading_value(bits) == unsigned_value(bits.reverse()),
    decreases bits.len(),
{
    if bits.len() > 0 {
        let rest = bits.drop_last();
        lemma_leading_is_reversed(rest);
        let reversed = bits.reverse();
        assert(reversed.drop_first() =~= rest.reverse());
        assert(reversed[0] == bits.last());
        lemma_unsigned_first(reversed);
    } else {
        assert(bits.reverse() =~= Seq::<bool>::empty());
    }
}

} // verus!
