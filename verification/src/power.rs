//! Exponentiation of integers.
//!
//! The power is computed by square and multiply over the wires of the
//! exponent, from the most significant down: the result so far is squared,
//! and multiplied by the base where the wire is set. Every product is checked
//! as a multiplication is, so the operation halts exactly when the type
//! cannot hold the power.

use crate::bits::{
    lemma_leading_is_reversed, lemma_signed_bound, lemma_top_bit, lemma_unsigned_bound,
    lemma_weight_values, lemma_zeros, leading_value, unsigned_value,
    value_of, weight,
};
use crate::circuit::{lemma_binds_all_extends, lemma_keep, values, Boolean, Circuit, Tally};
use crate::divide::select_each;
use crate::halt::{Halt, Opcode};
use crate::integer::{
    lemma_constant_mode, lemma_uniform_mode, wires_cost, Integer,
    IntegerType, IntegerView, Native,
};
use crate::mode::Mode;
use crate::multiply::{
    gates_cost, lemma_extends_twice, multiply_wires, multiply_wires_cost, native_multiply,
};
use vstd::prelude::*;

verus! {

/// `base` to the power `exponent`, as repeated multiplication.
pub open spec fn power(base: int, exponent: nat) -> int
    decreases exponent,
{
    if exponent == 0 {
        1
    } else {
        base * power(base, (exponent - 1) as nat)
    }
}

/// The number of wires of an exponent of type `ty` that the operation walks:
/// all but the sign.
pub open spec fn exponent_wires(ty: IntegerType) -> nat {
    if ty.spec_is_signed() {
        (ty.spec_width() - 1) as nat
    } else {
        ty.spec_width() as nat
    }
}

/// What one step of the exponentiation takes: a squaring, the choice of the
/// factor, and a multiplication.
pub open spec fn power_step_cost(ty: IntegerType, mode: Mode) -> Tally {
    multiply_wires_cost(ty, mode).plus(gates_cost(ty.spec_width() as nat)).plus(
        multiply_wires_cost(ty, mode),
    )
}

/// What raising an integer of type `ty` to a power on the constrained path
/// takes, with result wires of the given mode.
pub open spec fn power_wires_cost(ty: IntegerType, mode: Mode) -> Tally {
    let n = ty.spec_width() as nat;
    let sign = if ty.spec_is_signed() {
        Tally { constants: 1, public_variables: 0, private_variables: 0, constraints: 1 }
    } else {
        Tally::zero()
    };
    wires_cost(Mode::Constant, n).plus(sign).plus(
        power_step_cost(ty, mode).times(exponent_wires(ty)),
    )
}

/// What raising an integer of type `ty` and mode `first` to a power of mode
/// `second` takes.
pub open spec fn power_cost(ty: IntegerType, first: Mode, second: Mode) -> Tally {
    let mode = first.spec_join(second);
    if mode == Mode::Constant {
        wires_cost(Mode::Constant, ty.spec_width() as nat)
    } else {
        power_wires_cost(ty, mode)
    }
}

/// A power of a sum of exponents is the product of the powers.
pub proof fn lemma_power_adds(base: int, x: nat, y: nat)
    ensures
        power(base, x + y) == power(base, x) * power(base, y),
    decreases x,
{
    if x == 0 {
        assert(1 * power(base, y) == power(base, y)) by (nonlinear_arith);
    } else {
        lemma_power_adds(base, (x - 1) as nat, y);
        let p = power(base, (x - 1) as nat);
        let q = power(base, y);
        assert(power(base, x + y) == base * power(base, (x + y - 1) as nat));
        assert(base * (p * q) == (base * p) * q) by (nonlinear_arith);
    }
}

/// The powers of minus one, zero and one stay between minus one and one, and
/// the powers of a number that is not negative are not negative.
pub proof fn lemma_power_small(base: int, exponent: nat)
    ensures
        -1 <= base <= 1 ==> -1 <= power(base, exponent) <= 1,
        0 <= base ==> 0 <= power(base, exponent),
    decreases exponent,
{
    if exponent > 0 {
        lemma_power_small(base, (exponent - 1) as nat);
        let p = power(base, (exponent - 1) as nat);
        if -1 <= base <= 1 {
            assert(-1 <= base * p <= 1) by (nonlinear_arith)
                requires
                    -1 <= base <= 1,
                    -1 <= p <= 1,
            ;
        }
        if 0 <= base {
            assert(0 <= base * p) by (nonlinear_arith)
                requires
                    0 <= base,
                    0 <= p,
            ;
        }
    }
}

proof fn lemma_power_fits_step(ty: IntegerType, base: int, exponent: nat)
    requires
        ty.contains(base),
        ty.contains(power(base, exponent + 1)),
    ensures
        ty.contains(power(base, exponent)),
{
    let p = power(base, exponent);
    let half = weight((ty.spec_width() - 1) as nat) as int;
    lemma_weight_values();
    lemma_power_small(base, exponent);
    assert(power(base, exponent + 1) == base * p);
    if -1 <= base <= 1 {
    } else if ty.spec_is_signed() {
        assert(-half < p < half) by (nonlinear_arith)
            requires
                base >= 2 || base <= -2,
                -half <= base * p <= half,
                half >= 2,
        ;
    } else {
        assert(p <= base * p) by (nonlinear_arith)
            requires
                base >= 1,
                p >= 0,
        ;
    }
}

/// Where a type holds a power of one of its numbers, it holds every lower
/// power of it.
pub proof fn lemma_power_fits(ty: IntegerType, base: int, lower: nat, exponent: nat)
    requires
        ty.contains(base),
        lower <= exponent,
        ty.contains(power(base, exponent)),
    ensures
        ty.contains(power(base, lower)),
    decreases exponent - lower,
{
    if lower < exponent {
        lemma_power_fits_step(ty, base, (exponent - 1) as nat);
        lemma_power_fits(ty, base, lower, (exponent - 1) as nat);
    }
}

/// Reading the first wires of a sequence, most significant first, gives at
/// most what reading all of it gives.
proof fn lemma_leading_prefix(bits: Seq<bool>, k: int)
    requires
        0 <= k <= bits.len(),
    ensures
        leading_value(bits.take(k)) <= leading_value(bits),
        k < bits.len() ==> leading_value(bits.take(k + 1)) == 2 * leading_value(bits.take(k)) + (
        if bits[k] {
            1nat
        } else {
            0nat
        }),
    decreases bits.len() - k,
{
    if k < bits.len() {
        assert(bits.take(k + 1).drop_last() =~= bits.take(k));
        assert(bits.take(k + 1).last() == bits[k]);
        lemma_leading_prefix(bits, k + 1);
    } else {
        assert(bits.take(k) =~= bits);
    }
}

/// The step of the exponentiation in numbers.
proof fn lemma_power_step(base: int, p: nat, bit: bool)
    ensures
        power(base, p) * power(base, p) == power(base, 2 * p),
        power(base, 2 * p) * (if bit {
            base
        } else {
            1
        }) == power(base, 2 * p + if bit {
            1nat
        } else {
            0nat
        }),
{
    lemma_power_adds(base, p, p);
    let s = power(base, 2 * p);
    if bit {
        lemma_power_adds(base, 2 * p, 1);
        assert(power(base, 1) == base) by {
            reveal_with_fuel(power, 2);
            assert(base * 1 == base);
        }
    } else {
        assert(s * 1 == s);
    }
}

/// The value that the walked wires of an exponent stand for.
pub open spec fn walked(exponent: Seq<bool>, count: int) -> Seq<bool> {
    exponent.take(count).reverse()
}

/// The native power by square and multiply, where the type can hold it.
#[verifier::rlimit(40)]
fn native_power(ty: IntegerType, base: Native, exponent: &Vec<Boolean>, count: usize) -> (out:
    Option<Native>)
    requires
        base.spec_fits(ty),
        count <= exponent@.len(),
    ensures
        ({
            let e = unsigned_value(values(exponent@).take(count as int));
            &&& out is Some <==> ty.contains(power(base.as_int(), e))
            &&& out matches Some(r) ==> r.spec_fits(ty) && r.as_int() == power(base.as_int(), e)
        }),
{
    let ghost lead = walked(values(exponent@), count as int);
    let ghost b = base.as_int();
    proof {
        lemma_weight_values();
        lemma_leading_is_reversed(lead);
        assert(lead.reverse() =~= values(exponent@).take(count as int));
        assert(lead.take(0) =~= Seq::<bool>::empty());
    }
    let mut result = if ty.is_signed() {
        Native::Signed(1)
    } else {
        Native::Unsigned(1)
    };
    let mut k: usize = 0;
    while k < count
        invariant
            k <= count <= exponent@.len(),
            base.spec_fits(ty),
            b == base.as_int(),
            lead == walked(values(exponent@), count as int),
            lead.len() == count,
            leading_value(lead) == unsigned_value(values(exponent@).take(count as int)),
            result.spec_fits(ty),
            result.as_int() == power(b, leading_value(lead.take(k as int))),
        decreases count - k,
    {
        let ghost p = leading_value(lead.take(k as int));
        let bit = exponent[count - 1 - k].value;
        proof {
            lemma_leading_prefix(lead, k as int);
            lemma_leading_prefix(lead, k + 1);
            assert(lead[k as int] == bit);
            lemma_power_step(b, p, bit);
        }
        let squared = match native_multiply(ty, result, result) {
            Some(squared) => squared,
            None => {
                proof {
                    if ty.contains(power(b, leading_value(lead))) {
                        lemma_power_fits(ty, b, 2 * p, leading_value(lead));
                    }
                }
                return None;
            },
        };
        if bit {
            result = match native_multiply(ty, squared, base) {
                Some(product) => product,
                None => {
                    proof {
                        if ty.contains(power(b, leading_value(lead))) {
                            lemma_power_fits(ty, b, 2 * p + 1, leading_value(lead));
                        }
                    }
                    return None;
                },
            };
        } else {
            result = squared;
        }
        k = k + 1;
    }
    proof {
        assert(lead.take(count as int) =~= lead);
    }
    Some(result)
}

/// The wires of the constant one of `n` wires.
fn one_wires(cs: &mut Circuit, n: usize) -> (out: Vec<Boolean>)
    requires
        n >= 2,
    ensures
        out@.len() == n,
        unsigned_value(values(out@)) == 1,
        !values(out@).last(),
        final(cs)@.tally() == old(cs)@.tally().plus(wires_cost(Mode::Constant, n as nat)),
        final(cs)@.extends(old(cs)@),
        final(cs)@.binds_all(out@),
        old(cs)@.sound() ==> final(cs)@.sound(),
{
    let ghost start = cs@;
    let mut out: Vec<Boolean> = Vec::new();
    let mut i: usize = 0;
    while i < n
        invariant
            i <= n,
            out@.len() == i,
            forall|j: int| 0 <= j < i ==> (#[trigger] out@[j]).value == (j == 0),
            cs@.tally() == start.tally().plus(wires_cost(Mode::Constant, i as nat)),
            cs@.extends(start),
            cs@.binds_all(out@),
            start.sound() ==> cs@.sound(),
        decreases n - i,
    {
        let ghost earlier = cs@;
        let wire = cs.allocate(Mode::Constant, i == 0);
        proof {
            lemma_binds_all_extends(earlier, cs@, out@);
        }
        out.push(wire);
        i = i + 1;
    }
    proof {
        let v = values(out@);
        crate::bits::lemma_unsigned_first(v);
        lemma_zeros(v.drop_first());
    }
    out
}

/// One step of the exponentiation: the result so far squared, and multiplied
/// by the base where the wire of the exponent is set and by one where not.
#[verifier::rlimit(40)]
fn power_step(
    cs: &mut Circuit,
    ty: IntegerType,
    result: &Vec<Boolean>,
    base: &Vec<Boolean>,
    ones: &Vec<Boolean>,
    bit: Boolean,
    mode: Mode,
) -> (out: Option<Vec<Boolean>>)
    requires
        result@.len() == ty.spec_width(),
        base@.len() == ty.spec_width(),
        ones@.len() == ty.spec_width(),
        value_of(values(ones@), ty.spec_is_signed()) == 1,
    ensures
        ({
            let signed = ty.spec_is_signed();
            let square = value_of(values(result@), signed) * value_of(values(result@), signed);
            let factor = if bit.value {
                value_of(values(base@), signed)
            } else {
                1
            };
            &&& out is Some <==> ty.contains(square) && ty.contains(square * factor)
            &&& out matches Some(r) ==> {
                &&& r@.len() == ty.spec_width()
                &&& value_of(values(r@), signed) == square * factor
                &&& forall|i: int|
                    0 <= i < r@.len() ==> (#[trigger] r@[i]).mode == mode && !r@[i].inverted
                &&& final(cs)@.tally() == old(cs)@.tally().plus(power_step_cost(ty, mode))
                &&& final(cs)@.extends(old(cs)@)
                &&& final(cs)@.binds_all(r@)
                &&& old(cs)@.sound() && old(cs)@.binds_all(result@) && old(cs)@.binds_all(base@) && old(cs)@.binds_all(ones@) && old(cs)@.binds(bit) ==> final(cs)@.sound()
            }
        }),
{
    let n: usize = ty.width();
    let ghost s0 = cs@;
    let squared = match multiply_wires(cs, ty, result, result, mode) {
        Some(squared) => squared,
        None => {
            return None;
        },
    };
    let ghost s1 = cs@;
    proof {
        lemma_keep(s0, s1, base@, ones@, result@, bit, bit);
    }
    let factor = select_each(cs, bit, base, ones, n);
    let ghost s2 = cs@;
    proof {
        lemma_keep(s1, s2, squared@, squared@, squared@, bit, bit);
        assert(values(base@).take(n as int) =~= values(base@));
        assert(values(ones@).take(n as int) =~= values(ones@));
        lemma_extends_twice(s0, s1, s2);
    }
    let out = multiply_wires(cs, ty, &squared, &factor, mode);
    proof {
        if out is Some {
            lemma_extends_twice(s0, s2, cs@);
        }
    }
    out
}

/// Raises a sequence of wires to the power that the first `count` wires of
/// `exponent` stand for, as integers of type `ty` on the constrained path.
#[verifier::rlimit(40)]
fn power_steps(
    cs: &mut Circuit,
    ty: IntegerType,
    base: &Vec<Boolean>,
    exponent: &Vec<Boolean>,
    count: usize,
    mode: Mode,
) -> (out: Option<Vec<Boolean>>)
    requires
        base@.len() == ty.spec_width(),
        exponent@.len() == ty.spec_width(),
        count == exponent_wires(ty),
    ensures
        ({
            let b = value_of(values(base@), ty.spec_is_signed());
            let e = unsigned_value(values(exponent@).take(count as int));
            &&& out is Some <==> ty.contains(power(b, e))
            &&& out matches Some(r) ==> {
                &&& r@.len() == ty.spec_width()
                &&& value_of(values(r@), ty.spec_is_signed()) == power(b, e)
                &&& forall|i: int|
                    0 <= i < r@.len() ==> (#[trigger] r@[i]).mode == mode && !r@[i].inverted
                &&& final(cs)@.tally() == old(cs)@.tally().plus(
                    wires_cost(Mode::Constant, ty.spec_width() as nat).plus(
                        power_step_cost(ty, mode).times(count as nat),
                    ),
                )
                &&& final(cs)@.extends(old(cs)@)
                &&& final(cs)@.binds_all(r@)
                &&& old(cs)@.sound() && old(cs)@.binds_all(base@) && old(cs)@.binds_all(exponent@) ==> final(cs)@.sound()
            }
        }),
{
    let n: usize = ty.width();
    let signed = ty.is_signed();
    let ghost start = cs@;
    let ghost ok = start.sound() && start.binds_all(base@) && start.binds_all(exponent@);
    let ghost lead = walked(values(exponent@), count as int);
    let ghost b = value_of(values(base@), signed);
    let ones = one_wires(cs, n);
    let ghost middle = cs@;
    let mut result = crate::integer::copy_wires(&ones);
    let mut k: usize = 0;
    proof {
        lemma_keep(start, middle, base@, exponent@, base@, ones@[0], ones@[0]);
        lemma_weight_values();
        lemma_leading_is_reversed(lead);
        assert(lead.reverse() =~= values(exponent@).take(count as int));
        assert(lead.take(0) =~= Seq::<bool>::empty());
        lemma_top_bit(values(ones@));
        if signed {
            lemma_signed_bound(values(base@));
        } else {
            lemma_unsigned_bound(values(base@));
        }
    }
    while k < count
        invariant
            k <= count <= exponent@.len(),
            count >= 1,
            n == ty.spec_width(),
            signed == ty.spec_is_signed(),
            base@.len() == n,
            ones@.len() == n,
            result@.len() == n,
            ty.contains(b),
            b == value_of(values(base@), signed),
            value_of(values(ones@), signed) == 1,
            lead == walked(values(exponent@), count as int),
            lead.len() == count,
            leading_value(lead) == unsigned_value(values(exponent@).take(count as int)),
            middle.tally() == start.tally().plus(wires_cost(Mode::Constant, n as nat)),
            value_of(values(result@), signed) == power(b, leading_value(lead.take(k as int))),
            k > 0 ==> forall|i: int|
                0 <= i < n ==> (#[trigger] result@[i]).mode == mode && !result@[i].inverted,
            cs@.tally() == middle.tally().plus(power_step_cost(ty, mode).times(k as nat)),
            cs@.extends(start),
            cs@.binds_all(result@),
            cs@.binds_all(ones@),
            ok == (start.sound() && start.binds_all(base@) && start.binds_all(exponent@)),
            ok ==> cs@.sound() && cs@.binds_all(base@) && cs@.binds_all(exponent@),
        decreases count - k,
    {
        let ghost p = leading_value(lead.take(k as int));
        let ghost s0 = cs@;
        let bit = exponent[count - 1 - k];
        proof {
            lemma_leading_prefix(lead, k as int);
            lemma_leading_prefix(lead, k + 1);
            assert(lead[k as int] == bit.value);
            lemma_power_step(b, p, bit.value);
            if ok {
                assert(s0.binds(exponent@[count - 1 - k]));
            }
            if ty.contains(power(b, leading_value(lead))) {
                lemma_power_fits(ty, b, 2 * p, leading_value(lead));
                lemma_power_fits(ty, b, leading_value(lead.take(k + 1)), leading_value(lead));
            }
        }
        result = match power_step(cs, ty, &result, base, &ones, bit, mode) {
            Some(next) => next,
            None => {
                return None;
            },
        };
        proof {
            lemma_keep(s0, cs@, base@, exponent@, ones@, bit, bit);
            lemma_extends_twice(start, s0, cs@);
        }
        k = k + 1;
    }
    proof {
        assert(lead.take(count as int) =~= lead);
        if signed {
            lemma_signed_bound(values(result@));
        } else {
            lemma_unsigned_bound(values(result@));
        }
    }
    Some(result)
}

/// The number that an exponent stands for, by the wires that the operation
/// walks: a signed exponent with its sign set is negative, every other
/// exponent is what its walked wires stand for.
proof fn lemma_exponent(ty: IntegerType, exponent: Seq<bool>)
    requires
        exponent.len() == ty.spec_width(),
    ensures
        ty.spec_is_signed() && exponent.last() ==> value_of(exponent, true) < 0,
        !(ty.spec_is_signed() && exponent.last()) ==> value_of(exponent, ty.spec_is_signed())
            == unsigned_value(exponent.take(exponent_wires(ty) as int)),
{
    let n = ty.spec_width() as int;
    lemma_top_bit(exponent);
    lemma_signed_bound(exponent);
    assert(exponent.take(n - 1) =~= exponent.drop_last());
    assert(exponent.take(n) =~= exponent);
    lemma_unsigned_bound(exponent.drop_last());
}

impl Integer {
    /// The integer raised to the power of another of the same type.
    ///
    /// Halts when the types differ, when the exponent is negative, and when
    /// the type cannot hold the power.
    #[verifier::rlimit(40)]
    pub fn power(&self, cs: &mut Circuit, exponent: &Integer) -> (out: Result<Integer, Halt>)
        ensures
            out is Ok <==> {
                &&& self@.ty == exponent@.ty
                &&& exponent@.value() >= 0
                &&& self@.ty.contains(power(self@.value(), exponent@.value() as nat))
            },
            out matches Ok(r) ==> {
                &&& r@.wf()
                &&& r@.ty == self@.ty
                &&& r@.value() == power(self@.value(), exponent@.value() as nat)
                &&& r@.mode() == self@.mode().spec_join(exponent@.mode())
                &&& final(cs)@.tally() == old(cs)@.tally().plus(
                    power_cost(self@.ty, self@.mode(), exponent@.mode()),
                )
                &&& final(cs)@.extends(old(cs)@)
                &&& final(cs)@.binds_all(r@.wires)
                &&& old(cs)@.sound() && old(cs)@.binds_all(self@.wires) && old(cs)@.binds_all(exponent@.wires) ==> final(cs)@.sound()
            },
            out matches Err(halt) ==> halt == if self@.ty != exponent@.ty {
                Halt::InvalidInstruction { opcode: Opcode::Pow }
            } else if exponent@.value() < 0 {
                Halt::NegativeExponent { ty: self@.ty }
            } else {
                Halt::Overflow { opcode: Opcode::Pow, ty: self@.ty }
            },
    {
        let ty = self.ty();
        if ty != exponent.ty() {
            return Err(Halt::InvalidInstruction { opcode: Opcode::Pow });
        }
        let n: usize = ty.width();
        let signed = ty.is_signed();
        let mode = self.mode().join(exponent.mode());
        let ghost ve = values(exponent@.wires);
        proof {
            lemma_constant_mode(self@);
            lemma_constant_mode(exponent@);
            lemma_exponent(ty, ve);
        }
        let top = exponent.bits()[n - 1];
        assert(ve.last() == top.value);
        if signed && top.value {
            return Err(Halt::NegativeExponent { ty });
        }
        let count: usize = if signed {
            n - 1
        } else {
            n
        };
        match (self.cached(), exponent.cached()) {
            (Some(base), Some(_)) => {
                match native_power(ty, base, exponent.bits(), count) {
                    Some(r) => {
                        let out = Integer::constant(cs, ty, r);
                        Ok(out.unwrap())
                    },
                    None => Err(Halt::Overflow { opcode: Opcode::Pow, ty }),
                }
            },
            _ => {
                let ghost start = cs@;
                proof {
                    if start.binds_all(exponent@.wires) {
                        assert(start.binds(exponent@.wires[n - 1]));
                    }
                }
                if signed {
                    let zero = cs.allocate(Mode::Constant, false);
                    let ghost first = cs@;
                    proof {
                        lemma_keep(start, first, self@.wires, exponent@.wires, self@.wires, top, top);
                    }
                    cs.enforce_equal(top, zero, zero);
                    proof {
                        lemma_keep(first, cs@, self@.wires, exponent@.wires, self@.wires, top, top);
                    }
                }
                match power_steps(cs, ty, self.bits(), exponent.bits(), count, mode) {
                    Some(wires) => {
                        let out = Integer::from_bits_le(ty, &wires);
                        proof {
                            lemma_uniform_mode(IntegerView { ty, wires: wires@ }, mode);
                        }
                        Ok(out.unwrap())
                    },
                    None => Err(Halt::Overflow { opcode: Opcode::Pow, ty }),
                }
            },
        }
    }
}

} // verus!
