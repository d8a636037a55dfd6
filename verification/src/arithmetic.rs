//! Negation, addition and subtraction of integers.
//!
//! Each operation has two paths. When every operand wire is a constant the
//! result is computed by native arithmetic and allocated as a constant. In
//! every other case the result is rippled through full adders from the least
//! significant wire upward. Both paths return the same number and halt on the
//! same operands.

use crate::bits::{
    complement, lemma_complement, lemma_signed_bound, lemma_top_bit, lemma_unsigned_bound,
    lemma_weight_positive, lemma_weight_values, lemma_zeros, unsigned_value, value_of, weight,
};
use crate::circuit::{
    count_true, lemma_binds_all_extends, lemma_binds_extends, lemma_keep, values, Boolean,
    Circuit, CircuitView, Tally,
};
use crate::halt::{Halt, Opcode};
use crate::integer::{
    lemma_constant_mode, lemma_uniform_mode, wires_cost, Integer, IntegerType,
    IntegerView, Native,
};
use crate::mode::Mode;
use vstd::prelude::*;

verus! {

/// What a chain of `n` full adders with sum wires of the given mode takes.
pub open spec fn ripple_cost(mode: Mode, n: nat) -> Tally {
    match mode {
        Mode::Constant => Tally {
            constants: n,
            public_variables: 0,
            private_variables: n,
            constraints: 2 * n,
        },
        Mode::Public => Tally {
            constants: 0,
            public_variables: n,
            private_variables: n,
            constraints: 3 * n,
        },
        Mode::Private => Tally {
            constants: 0,
            public_variables: 0,
            private_variables: 2 * n,
            constraints: 3 * n,
        },
    }
}

/// The carry that enters position `i` of a chain.
pub open spec fn carry_into(carry_in: Boolean, carries: Seq<Boolean>, i: int) -> Boolean {
    if i == 0 {
        carry_in
    } else {
        carries[i - 1]
    }
}

/// Adds two sequences of wires of one length and a carry, from the least
/// significant position upward. Returns the sum wires, allocated in `mode`,
/// and the carry out of every position.
#[verifier::rlimit(40)]
pub(crate) fn ripple_add(
    cs: &mut Circuit,
    a: &Vec<Boolean>,
    b: &Vec<Boolean>,
    carry_in: Boolean,
    mode: Mode,
) -> (out: (Vec<Boolean>, Vec<Boolean>))
    requires
        a@.len() == b@.len(),
    ensures
        out.0@.len() == a@.len(),
        out.1@.len() == a@.len(),
        unsigned_value(values(a@)) + unsigned_value(values(b@)) + count_true(carry_in.value)
            == unsigned_value(values(out.0@)) + if carry_into(
            carry_in,
            out.1@,
            a@.len() as int,
        ).value {
            weight(a@.len())
        } else {
            0
        },
        forall|i: int|
            0 <= i < a@.len() ==> count_true(a@[i].value) + count_true(b@[i].value) + count_true(
                carry_into(carry_in, out.1@, i).value,
            ) == count_true((#[trigger] out.0@[i]).value) + 2 * count_true(out.1@[i].value),
        forall|i: int|
            0 <= i < a@.len() ==> (#[trigger] out.0@[i]).mode == mode && !out.0@[i].inverted,
        final(cs)@.tally() == old(cs)@.tally().plus(ripple_cost(mode, a@.len())),
        final(cs)@.extends(old(cs)@),
        final(cs)@.binds_all(out.0@),
        final(cs)@.binds_all(out.1@),
        old(cs)@.sound() && old(cs)@.binds_all(a@) && old(cs)@.binds_all(b@) && old(cs)@.binds(carry_in) ==> final(cs)@.sound(),
{
    let n: usize = a.len();
    let ghost start = cs@;
    let ghost ok = start.sound() && start.binds_all(a@) && start.binds_all(b@) && start.binds(carry_in);
    let ghost va = values(a@);
    let ghost vb = values(b@);
    let mut sums: Vec<Boolean> = Vec::new();
    let mut carries: Vec<Boolean> = Vec::new();
    let mut carry = carry_in;
    let mut i: usize = 0;
    proof {
        assert(va.take(0) =~= Seq::<bool>::empty());
        assert(vb.take(0) =~= Seq::<bool>::empty());
        assert(values(sums@) =~= Seq::<bool>::empty());
    }
    while i < n
        invariant
            i <= n,
            n == a@.len(),
            n == b@.len(),
            va == values(a@),
            vb == values(b@),
            sums@.len() == i,
            carries@.len() == i,
            carry == carry_into(carry_in, carries@, i as int),
            unsigned_value(va.take(i as int)) + unsigned_value(vb.take(i as int)) + count_true(
                carry_in.value,
            ) == unsigned_value(values(sums@)) + if carry.value {
                weight(i as nat)
            } else {
                0
            },
            forall|j: int|
                0 <= j < i ==> count_true(a@[j].value) + count_true(b@[j].value) + count_true(
                    carry_into(carry_in, carries@, j).value,
                ) == count_true((#[trigger] sums@[j]).value) + 2 * count_true(carries@[j].value),
            forall|j: int| 0 <= j < i ==> (#[trigger] sums@[j]).mode == mode && !sums@[j].inverted,
            cs@.tally() == start.tally().plus(ripple_cost(mode, i as nat)),
            cs@.extends(start),
            cs@.binds_all(sums@),
            cs@.binds_all(carries@),
            ok == (start.sound() && start.binds_all(a@) && start.binds_all(b@) && start.binds(carry_in)),
            ok ==> cs@.sound() && cs@.binds(carry),
        decreases n - i,
    {
        let ghost before = values(sums@);
        let ghost earlier = cs@;
        proof {
            if ok {
                lemma_binds_extends(start, earlier, a@[i as int]);
                lemma_binds_extends(start, earlier, b@[i as int]);
            }
        }
        let (sum, next) = cs.full_adder(a[i], b[i], carry, mode);
        proof {
            lemma_binds_all_extends(earlier, cs@, sums@);
            lemma_binds_all_extends(earlier, cs@, carries@);
        }
        sums.push(sum);
        carries.push(next);
        proof {
            assert(va.take(i + 1).drop_last() =~= va.take(i as int));
            assert(vb.take(i + 1).drop_last() =~= vb.take(i as int));
            assert(values(sums@).drop_last() =~= before);
            assert(va.take(i + 1).last() == a@[i as int].value);
            assert(vb.take(i + 1).last() == b@[i as int].value);
            assert(values(sums@).last() == sum.value);
        }
        carry = next;
        i = i + 1;
    }
    proof {
        assert(va.take(n as int) =~= va);
        assert(vb.take(n as int) =~= vb);
    }
    (sums, carries)
}

/// A sequence of `n` copies of one wire.
pub(crate) fn repeat_wire(wire: Boolean, n: usize) -> (out: Vec<Boolean>)
    ensures
        out@.len() == n,
        forall|i: int| 0 <= i < n ==> out@[i] == wire,
        forall|cs: CircuitView| cs.binds(wire) ==> #[trigger] cs.binds_all(out@),
{
    let mut out: Vec<Boolean> = Vec::new();
    let mut i: usize = 0;
    while i < n
        invariant
            i <= n,
            out@.len() == i,
            forall|j: int| 0 <= j < i ==> out@[j] == wire,
        decreases n - i,
    {
        out.push(wire);
        i = i + 1;
    }
    out
}

/// The wires of `bits`, each read negated.
pub(crate) fn complement_wires(bits: &Vec<Boolean>) -> (out: Vec<Boolean>)
    ensures
        out@.len() == bits@.len(),
        forall|i: int| 0 <= i < bits@.len() ==> out@[i] == bits@[i].spec_not(),
        values(out@) == complement(values(bits@)),
        forall|cs: CircuitView| cs.binds_all(bits@) ==> #[trigger] cs.binds_all(out@),
{
    let mut out: Vec<Boolean> = Vec::new();
    let mut i: usize = 0;
    while i < bits.len()
        invariant
            i <= bits.len(),
            out@.len() == i,
            forall|j: int| 0 <= j < i ==> out@[j] == bits@[j].spec_not(),
        decreases bits.len() - i,
    {
        out.push(bits[i].not());
        i = i + 1;
    }
    assert(values(out@) =~= complement(values(bits@)));
    assert forall|cs: CircuitView| cs.binds_all(bits@) implies #[trigger] cs.binds_all(out@) by {
        assert forall|i: int| 0 <= i < out@.len() implies cs.binds(#[trigger] out@[i]) by {
            assert(cs.binds(bits@[i]));
        }
    }
    out
}

/// What negating an integer of type `ty` and mode `mode` takes.
pub open spec fn negate_cost(ty: IntegerType, mode: Mode) -> Tally {
    let n = ty.spec_width() as nat;
    if mode == Mode::Constant {
        wires_cost(Mode::Constant, n)
    } else {
        Tally { constants: 2, public_variables: 0, private_variables: 0, constraints: 1 }.plus(
            ripple_cost(mode, n),
        )
    }
}

/// What adding two integers of type `ty` and modes `first` and `second` takes.
pub open spec fn add_cost(ty: IntegerType, first: Mode, second: Mode) -> Tally {
    let n = ty.spec_width() as nat;
    let mode = first.spec_join(second);
    if mode == Mode::Constant {
        wires_cost(Mode::Constant, n)
    } else {
        Tally { constants: 1, public_variables: 0, private_variables: 0, constraints: 1 }.plus(
            ripple_cost(mode, n),
        )
    }
}

/// What subtracting two integers of type `ty` and modes `first` and `second`
/// takes: a negation of the second and an addition.
pub open spec fn subtract_cost(ty: IntegerType, first: Mode, second: Mode) -> Tally {
    negate_cost(ty, second).plus(add_cost(ty, first, second))
}

/// The native negation, where the type can hold it.
fn native_negate(ty: IntegerType, x: Native) -> (out: Option<Native>)
    requires
        x.spec_fits(ty),
    ensures
        out is Some <==> ty.spec_is_signed() && x.as_int() != ty.min_value(),
        out matches Some(r) ==> r.spec_fits(ty) && r.as_int() == -x.as_int(),
{
    match x {
        Native::Signed(v) => {
            if v == ty.least_signed() {
                None
            } else {
                proof {
                    lemma_weight_values();
                }
                Some(Native::Signed(-v))
            }
        },
        Native::Unsigned(_) => None,
    }
}

/// The native sum, where the type can hold it.
fn native_add(ty: IntegerType, x: Native, y: Native) -> (out: Option<Native>)
    requires
        x.spec_fits(ty),
        y.spec_fits(ty),
    ensures
        out is Some <==> ty.contains(x.as_int() + y.as_int()),
        out matches Some(r) ==> r.spec_fits(ty) && r.as_int() == x.as_int() + y.as_int(),
{
    proof {
        lemma_weight_values();
    }
    match (x, y) {
        (Native::Signed(v), Native::Signed(w)) => match v.checked_add(w) {
            Some(s) => if Native::Signed(s).fits(ty) {
                Some(Native::Signed(s))
            } else {
                None
            },
            None => None,
        },
        (Native::Unsigned(v), Native::Unsigned(w)) => match v.checked_add(w) {
            Some(s) => if Native::Unsigned(s).fits(ty) {
                Some(Native::Unsigned(s))
            } else {
                None
            },
            None => None,
        },
        _ => None,
    }
}

/// The negation of a two's complement number in terms of its wires: the
/// rippled result of flipping every wire and adding one.
proof fn lemma_negation(a: Seq<bool>, s: Seq<bool>, carry: bool)
    requires
        a.len() > 0,
        s.len() == a.len(),
        unsigned_value(complement(a)) + 1 == unsigned_value(s) + if carry {
            weight(a.len())
        } else {
            0
        },
    ensures
        a.last() && s.last() <==> value_of(a, true) == -weight((a.len() - 1) as nat),
        !(a.last() && s.last()) ==> value_of(s, true) == -value_of(a, true),
{
    lemma_complement(a);
    lemma_top_bit(a);
    lemma_top_bit(s);
    lemma_unsigned_bound(a);
    lemma_unsigned_bound(s);
    lemma_signed_bound(a);
    lemma_signed_bound(s);
    lemma_weight_positive((a.len() - 1) as nat);
}

/// The sum of two numbers in terms of their wires and of the rippled result:
/// when the type cannot hold it, and that the result stands for it when the
/// type can.
proof fn lemma_sum(
    signed: bool,
    a: Seq<bool>,
    b: Seq<bool>,
    s: Seq<bool>,
    before: bool,
    carry: bool,
)
    requires
        a.len() > 0,
        b.len() == a.len(),
        s.len() == a.len(),
        unsigned_value(a) + unsigned_value(b) == unsigned_value(s) + if carry {
            weight(a.len())
        } else {
            0
        },
        count_true(a.last()) + count_true(b.last()) + count_true(before) == count_true(s.last())
            + 2 * count_true(carry),
    ensures
        ({
            let half = weight((a.len() - 1) as nat) as int;
            let sum = value_of(a, signed) + value_of(b, signed);
            let overflow = if signed {
                a.last() == b.last() && s.last() != a.last()
            } else {
                carry
            };
            &&& overflow <==> !(if signed {
                -half <= sum < half
            } else {
                0 <= sum < 2 * half
            })
            &&& !overflow ==> value_of(s, signed) == sum
            &&& !overflow && signed ==> carry == before
        }),
{
    lemma_top_bit(a);
    lemma_top_bit(b);
    lemma_top_bit(s);
    lemma_unsigned_bound(a);
    lemma_unsigned_bound(b);
    lemma_unsigned_bound(s);
    lemma_signed_bound(a);
    lemma_signed_bound(b);
    lemma_signed_bound(s);
    lemma_weight_positive((a.len() - 1) as nat);
}

/// Negates a sequence of wires as a two's complement integer on the
/// constrained path. Returns the wires of the negation, allocated in `mode`,
/// or nothing where the number is the least of its width.
#[verifier::rlimit(40)]
fn negate_wires(cs: &mut Circuit, a: &Vec<Boolean>, mode: Mode) -> (out: Option<Vec<Boolean>>)
    requires
        a@.len() >= 2,
    ensures
        out is Some <==> value_of(values(a@), true) != -weight((a@.len() - 1) as nat),
        out matches Some(r) ==> {
            &&& r@.len() == a@.len()
            &&& value_of(values(r@), true) == -value_of(values(a@), true)
            &&& forall|i: int|
                0 <= i < r@.len() ==> (#[trigger] r@[i]).mode == mode && !r@[i].inverted
            &&& final(cs)@.tally() == old(cs)@.tally().plus(
                Tally { constants: 2, public_variables: 0, private_variables: 0, constraints: 1 },
            ).plus(ripple_cost(mode, a@.len()))
            &&& final(cs)@.extends(old(cs)@)
            &&& final(cs)@.binds_all(r@)
            &&& old(cs)@.sound() && old(cs)@.binds_all(a@) ==> final(cs)@.sound()
        },
{
    let n: usize = a.len();
    let ghost start = cs@;
    let zero = cs.allocate(Mode::Constant, false);
    let ghost first = cs@;
    let one = cs.allocate(Mode::Constant, true);
    let flipped = complement_wires(a);
    let zeros = repeat_wire(zero, n);
    let ghost middle = cs@;
    proof {
        lemma_keep(start, first, a@, a@, a@, zero, zero);
        lemma_keep(first, middle, a@, a@, a@, zero, zero);
    }
    let (sums, carries) = ripple_add(cs, &flipped, &zeros, one, mode);
    let top = a[n - 1];
    let result_top = sums[n - 1];
    let ghost after = cs@;
    proof {
        lemma_keep(middle, after, a@, a@, a@, zero, zero);
        if after.binds_all(a@) {
            assert(after.binds(a@[n - 1]));
        }
        assert(after.binds(sums@[n - 1]));
        lemma_zeros(values(zeros@));
        assert(values(a@).last() == top.value);
        assert(values(sums@).last() == result_top.value);
        lemma_negation(values(a@), values(sums@), carries@[n - 1].value);
    }
    if top.value && result_top.value {
        return None;
    }
    cs.enforce(
        crate::circuit::Constraint::Product {
            a: top.variable(),
            b: result_top.variable(),
            out: zero.variable(),
        },
    );
    proof {
        lemma_keep(after, cs@, sums@, sums@, sums@, zero, zero);
    }
    Some(sums)
}

/// Adds two sequences of wires as integers of type `ty` on the constrained
/// path. Returns the wires of the sum, allocated in `mode`, or nothing where
/// the type cannot hold the sum.
#[verifier::rlimit(40)]
fn add_wires(
    cs: &mut Circuit,
    ty: IntegerType,
    a: &Vec<Boolean>,
    b: &Vec<Boolean>,
    mode: Mode,
) -> (out: Option<Vec<Boolean>>)
    requires
        a@.len() == ty.spec_width(),
        b@.len() == ty.spec_width(),
    ensures
        ({
            let sum = value_of(values(a@), ty.spec_is_signed()) + value_of(
                values(b@),
                ty.spec_is_signed(),
            );
            &&& out is Some <==> ty.contains(sum)
            &&& out matches Some(r) ==> {
                &&& r@.len() == ty.spec_width()
                &&& value_of(values(r@), ty.spec_is_signed()) == sum
                &&& forall|i: int|
                    0 <= i < r@.len() ==> (#[trigger] r@[i]).mode == mode && !r@[i].inverted
                &&& final(cs)@.tally() == old(cs)@.tally().plus(
                    Tally {
                        constants: 1,
                        public_variables: 0,
                        private_variables: 0,
                        constraints: 1,
                    },
                ).plus(ripple_cost(mode, ty.spec_width() as nat))
                &&& final(cs)@.extends(old(cs)@)
                &&& final(cs)@.binds_all(r@)
                &&& old(cs)@.sound() && old(cs)@.binds_all(a@) && old(cs)@.binds_all(b@)
                    ==> final(cs)@.sound()
            }
        }),
{
    let n: usize = ty.width();
    let signed = ty.is_signed();
    let ghost start = cs@;
    let zero = cs.allocate(Mode::Constant, false);
    let ghost middle = cs@;
    proof {
        lemma_keep(start, middle, a@, b@, a@, zero, zero);
    }
    let (sums, carries) = ripple_add(cs, a, b, zero, mode);
    let ghost after = cs@;
    let a_top = a[n - 1].value;
    let b_top = b[n - 1].value;
    let s_top = sums[n - 1].value;
    let carry = carries[n - 1];
    let before = carries[n - 2];
    let overflow = if signed {
        a_top == b_top && s_top != a_top
    } else {
        carry.value
    };
    proof {
        lemma_keep(middle, after, a@, b@, a@, zero, zero);
        assert(after.binds(carries@[n - 1]));
        assert(after.binds(carries@[n - 2]));
        assert(values(a@).last() == a_top);
        assert(values(b@).last() == b_top);
        assert(values(sums@).last() == s_top);
        assert(sums@[n - 1].value == s_top);
        assert(carry_into(zero, carries@, n - 1) == before);
        lemma_sum(signed, values(a@), values(b@), values(sums@), before.value, carry.value);
        assert(weight(n as nat) == 2 * weight((n - 1) as nat));
    }
    if overflow {
        return None;
    }
    if signed {
        cs.enforce_equal(carry, before, zero);
    } else {
        cs.enforce_equal(carry, zero, zero);
    }
    proof {
        lemma_keep(after, cs@, sums@, sums@, sums@, zero, zero);
    }
    Some(sums)
}

impl Integer {
    /// The two's complement negation: every wire flipped, and one added.
    ///
    /// Halts on an unsigned integer, for which negation is not defined, and on
    /// the least value of a signed type, whose negation the type cannot hold.
    pub fn negate(&self, cs: &mut Circuit) -> (out: Result<Integer, Halt>)
        ensures
            out is Ok <==> self@.ty.spec_is_signed() && self@.value() != self@.ty.min_value(),
            out matches Ok(r) ==> {
                &&& r@.wf()
                &&& r@.ty == self@.ty
                &&& r@.value() == -self@.value()
                &&& r@.mode() == self@.mode()
                &&& final(cs)@.tally() == old(cs)@.tally().plus(
                    negate_cost(self@.ty, self@.mode()),
                )
                &&& final(cs)@.extends(old(cs)@)
                &&& final(cs)@.binds_all(r@.wires)
                &&& old(cs)@.sound() && old(cs)@.binds_all(self@.wires) ==> final(cs)@.sound()
            },
            out matches Err(halt) ==> halt == if self@.ty.spec_is_signed() {
                Halt::Overflow { opcode: Opcode::Neg, ty: self@.ty }
            } else {
                Halt::InvalidInstruction { opcode: Opcode::Neg }
            },
    {
        let ty = self.ty();
        if !ty.is_signed() {
            return Err(Halt::InvalidInstruction { opcode: Opcode::Neg });
        }
        proof {
            lemma_constant_mode(self@);
        }
        match self.cached() {
            Some(native) => {
                match native_negate(ty, native) {
                    Some(r) => {
                        let out = Integer::constant(cs, ty, r);
                        Ok(out.unwrap())
                    },
                    None => Err(Halt::Overflow { opcode: Opcode::Neg, ty }),
                }
            },
            None => {
                let mode = self.mode();
                match negate_wires(cs, self.bits(), mode) {
                    Some(wires) => {
                        let out = Integer::from_bits_le(ty, &wires);
                        proof {
                            lemma_uniform_mode(IntegerView { ty, wires: wires@ }, mode);
                        }
                        Ok(out.unwrap())
                    },
                    None => Err(Halt::Overflow { opcode: Opcode::Neg, ty }),
                }
            },
        }
    }

    /// The sum of two integers of one type.
    ///
    /// Halts when the types differ, and when the type cannot hold the sum:
    /// for a signed type the operands then have one sign and the rippled
    /// result the other, for an unsigned type the last carry is set.
    pub fn add(&self, cs: &mut Circuit, other: &Integer) -> (out: Result<Integer, Halt>)
        ensures
            out is Ok <==> self@.ty == other@.ty && self@.ty.contains(
                self@.value() + other@.value(),
            ),
            out matches Ok(r) ==> {
                &&& r@.wf()
                &&& r@.ty == self@.ty
                &&& r@.value() == self@.value() + other@.value()
                &&& r@.mode() == self@.mode().spec_join(other@.mode())
                &&& final(cs)@.tally() == old(cs)@.tally().plus(
                    add_cost(self@.ty, self@.mode(), other@.mode()),
                )
                &&& final(cs)@.extends(old(cs)@)
                &&& final(cs)@.binds_all(r@.wires)
                &&& old(cs)@.sound() && old(cs)@.binds_all(self@.wires) && old(cs)@.binds_all(other@.wires) ==> final(cs)@.sound()
            },
            out matches Err(halt) ==> halt == if self@.ty == other@.ty {
                Halt::Overflow { opcode: Opcode::Add, ty: self@.ty }
            } else {
                Halt::InvalidInstruction { opcode: Opcode::Add }
            },
    {
        let ty = self.ty();
        if ty != other.ty() {
            return Err(Halt::InvalidInstruction { opcode: Opcode::Add });
        }
        let mode = self.mode().join(other.mode());
        proof {
            lemma_constant_mode(self@);
            lemma_constant_mode(other@);
        }
        match (self.cached(), other.cached()) {
            (Some(x), Some(y)) => {
                match native_add(ty, x, y) {
                    Some(r) => {
                        let out = Integer::constant(cs, ty, r);
                        Ok(out.unwrap())
                    },
                    None => Err(Halt::Overflow { opcode: Opcode::Add, ty }),
                }
            },
            _ => {
                match add_wires(cs, ty, self.bits(), other.bits(), mode) {
                    Some(wires) => {
                        let out = Integer::from_bits_le(ty, &wires);
                        proof {
                            lemma_uniform_mode(IntegerView { ty, wires: wires@ }, mode);
                        }
                        Ok(out.unwrap())
                    },
                    None => Err(Halt::Overflow { opcode: Opcode::Add, ty }),
                }
            },
        }
    }

    /// The difference of two integers of one type, as the sum of the first
    /// and the negation of the second.
    ///
    /// Halts wherever the negation of the second halts, and wherever the
    /// addition then halts.
    pub fn subtract(&self, cs: &mut Circuit, other: &Integer) -> (out: Result<Integer, Halt>)
        ensures
            out is Ok <==> {
                &&& self@.ty == other@.ty
                &&& self@.ty.spec_is_signed()
                &&& other@.value() != other@.ty.min_value()
                &&& self@.ty.contains(self@.value() - other@.value())
            },
            out matches Ok(r) ==> {
                &&& r@.wf()
                &&& r@.ty == self@.ty
                &&& r@.value() == self@.value() - other@.value()
                &&& r@.mode() == self@.mode().spec_join(other@.mode())
                &&& final(cs)@.tally() == old(cs)@.tally().plus(
                    subtract_cost(self@.ty, self@.mode(), other@.mode()),
                )
                &&& final(cs)@.extends(old(cs)@)
                &&& final(cs)@.binds_all(r@.wires)
                &&& old(cs)@.sound() && old(cs)@.binds_all(self@.wires) && old(cs)@.binds_all(other@.wires) ==> final(cs)@.sound()
            },
            out matches Err(halt) ==> halt == if self@.ty == other@.ty && self@.ty.spec_is_signed() {
                Halt::Overflow { opcode: Opcode::Sub, ty: self@.ty }
            } else {
                Halt::InvalidInstruction { opcode: Opcode::Sub }
            },
    {
        let ty = self.ty();
        if ty != other.ty() || !ty.is_signed() {
            return Err(Halt::InvalidInstruction { opcode: Opcode::Sub });
        }
        let ghost start = cs@;
        let negated = match other.negate(cs) {
            Ok(negated) => negated,
            Err(_) => {
                return Err(Halt::Overflow { opcode: Opcode::Sub, ty });
            },
        };
        proof {
            if start.binds_all(self@.wires) {
                lemma_binds_all_extends(start, cs@, self@.wires);
            }
        }
        match self.add(cs, &negated) {
            Ok(r) => Ok(r),
            Err(_) => Err(Halt::Overflow { opcode: Opcode::Sub, ty }),
        }
    }
}

} // verus!
