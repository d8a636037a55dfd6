//! Division of integers.
//!
//! The quotient is rounded toward zero. The constrained path divides
//! magnitudes by long division, one wire of the dividend per row from the most
//! significant down: the remainder is doubled, takes the wire in, and gives
//! the divisor up where it has reached it. The quotient and the remainder
//! come out of the rows separately.

use crate::arithmetic::{complement_wires, repeat_wire, ripple_add, ripple_cost};
use crate::bits::{
    lemma_complement, lemma_leading_is_reversed, lemma_signed_bound, lemma_top_bit,
    lemma_unsigned_bound, lemma_unsigned_first, lemma_unsigned_push, lemma_weight_positive,
    lemma_weight_values, lemma_zeros, leading_value, unsigned_value, value_of, weight,
};
use crate::circuit::{
    full_adder_cost, lemma_binds_all_extends, lemma_binds_extends, lemma_keep, values, Boolean,
    Circuit, CircuitView, Tally,
};
use crate::halt::{Halt, Opcode};
use crate::integer::{
    copy_wires, lemma_constant_mode, lemma_uniform_mode, reverse_wires, wires_cost, Integer,
    IntegerType, IntegerView, Native,
};
use crate::mode::Mode;
use crate::multiply::{
    all_clear, clear_chain, conditional_negate_cost, gates_cost, magnitude, relations_cost,
    with_sign, with_sign_cost,
};
use vstd::arithmetic::div_mod::lemma_fundamental_div_mod_converse;
use vstd::prelude::*;

verus! {

/// The distance of a number from zero.
pub open spec fn magnitude_of(x: int) -> int {
    if x < 0 {
        -x
    } else {
        x
    }
}

/// The quotient of `a` by `b`, rounded toward zero.
pub open spec fn quotient(a: int, b: int) -> int {
    let m = magnitude_of(a) / magnitude_of(b);
    if (a < 0) != (b < 0) {
        -m
    } else {
        m
    }
}

/// What one row of a long division of `n` wires takes: the chain that
/// subtracts the divisor from the doubled remainder, and the choice between
/// the difference and the remainder.
pub open spec fn division_row_cost(n: nat) -> Tally {
    ripple_cost(Mode::Private, n + 1).plus(gates_cost(n))
}

/// What a long division of `n` wires takes.
pub open spec fn long_division_cost(n: nat) -> Tally {
    division_row_cost(n).times(n)
}

/// What dividing two integers of type `ty` on the constrained path takes,
/// with result wires of the given mode.
pub open spec fn divide_wires_cost(ty: IntegerType, mode: Mode) -> Tally {
    let n = ty.spec_width() as nat;
    let check = Tally {
        constants: 2,
        public_variables: 0,
        private_variables: 0,
        constraints: 0,
    }.plus(gates_cost((n - 1) as nat)).plus(relations_cost(1));
    if ty.spec_is_signed() {
        check.plus(conditional_negate_cost(Mode::Private, n)).plus(
            conditional_negate_cost(Mode::Private, n),
        ).plus(long_division_cost(n)).plus(full_adder_cost(Mode::Private)).plus(
            with_sign_cost(mode, n),
        )
    } else {
        check.plus(long_division_cost(n)).plus(ripple_cost(mode, n))
    }
}

/// What dividing two integers of type `ty` and modes `first` and `second`
/// takes.
pub open spec fn divide_cost(ty: IntegerType, first: Mode, second: Mode) -> Tally {
    let mode = first.spec_join(second);
    if mode == Mode::Constant {
        wires_cost(Mode::Constant, ty.spec_width() as nat)
    } else {
        divide_wires_cost(ty, mode)
    }
}

/// The wire `first`, then the wires of `rest`.
fn prepend(first: Boolean, rest: &Vec<Boolean>) -> (out: Vec<Boolean>)
    ensures
        out@ == seq![first] + rest@,
        forall|cs: CircuitView|
            cs.binds(first) && cs.binds_all(rest@) ==> #[trigger] cs.binds_all(out@),
{
    let mut out: Vec<Boolean> = Vec::new();
    out.push(first);
    let mut i: usize = 0;
    while i < rest.len()
        invariant
            i <= rest.len(),
            out@.len() == i + 1,
            out@[0] == first,
            forall|j: int| 0 <= j < i ==> out@[j + 1] == rest@[j],
        decreases rest.len() - i,
    {
        out.push(rest[i]);
        i = i + 1;
    }
    assert(out@ =~= seq![first] + rest@);
    assert forall|cs: CircuitView| cs.binds(first) && cs.binds_all(rest@) implies #[trigger] cs.binds_all(
        out@,
    ) by {
        assert forall|i: int| 0 <= i < out@.len() implies cs.binds(#[trigger] out@[i]) by {
            if i > 0 {
                assert(cs.binds(rest@[i - 1]));
            }
        }
    }
    out
}

/// For each of the first `n` positions, the wire of `when_true` where
/// `condition` reads true and the wire of `when_false` where not.
pub(crate) fn select_each(
    cs: &mut Circuit,
    condition: Boolean,
    when_true: &Vec<Boolean>,
    when_false: &Vec<Boolean>,
    n: usize,
) -> (out: Vec<Boolean>)
    requires
        n <= when_true@.len(),
        n <= when_false@.len(),
    ensures
        out@.len() == n,
        values(out@) == if condition.value {
            values(when_true@).take(n as int)
        } else {
            values(when_false@).take(n as int)
        },
        forall|i: int| 0 <= i < n ==> (#[trigger] out@[i]).mode == Mode::Private && !out@[i].inverted,
        final(cs)@.tally() == old(cs)@.tally().plus(gates_cost(n as nat)),
        final(cs)@.extends(old(cs)@),
        final(cs)@.binds_all(out@),
        old(cs)@.sound() && old(cs)@.binds(condition) && old(cs)@.binds_all(when_true@)
            && old(cs)@.binds_all(when_false@) ==> final(cs)@.sound(),
{
    let ghost start = cs@;
    let ghost ok = start.sound() && start.binds(condition) && start.binds_all(when_true@)
        && start.binds_all(when_false@);
    let mut out: Vec<Boolean> = Vec::new();
    let mut i: usize = 0;
    while i < n
        invariant
            i <= n,
            n <= when_true@.len(),
            n <= when_false@.len(),
            out@.len() == i,
            forall|j: int|
                0 <= j < i ==> (#[trigger] out@[j]).value == if condition.value {
                    when_true@[j].value
                } else {
                    when_false@[j].value
                },
            forall|j: int|
                0 <= j < i ==> (#[trigger] out@[j]).mode == Mode::Private && !out@[j].inverted,
            cs@.tally() == start.tally().plus(gates_cost(i as nat)),
            cs@.extends(start),
            cs@.binds_all(out@),
            ok == (start.sound() && start.binds(condition) && start.binds_all(when_true@)
                && start.binds_all(when_false@)),
            ok ==> cs@.sound(),
        decreases n - i,
    {
        let ghost earlier = cs@;
        proof {
            if ok {
                lemma_binds_extends(start, earlier, condition);
                lemma_binds_extends(start, earlier, when_true@[i as int]);
                lemma_binds_extends(start, earlier, when_false@[i as int]);
            }
        }
        let wire = cs.select(condition, when_true[i], when_false[i], Mode::Private);
        proof {
            lemma_binds_all_extends(earlier, cs@, out@);
        }
        out.push(wire);
        i = i + 1;
    }
    proof {
        if condition.value {
            assert(values(out@) =~= values(when_true@).take(n as int));
        } else {
            assert(values(out@) =~= values(when_false@).take(n as int));
        }
    }
    out
}

proof fn lemma_division_step(q: int, b: int, r: int, c: int, bit: int, next: int)
    requires
        next == 2 * r + bit - c * b,
    ensures
        (2 * q + c) * b + next == 2 * (q * b + r) + bit,
{
    assert((2 * q + c) * b == 2 * (q * b) + c * b) by (nonlinear_arith);
}

/// Divides one sequence of wires by another of the same length, both read
/// unsigned. Returns the wires of the quotient and of the remainder.
#[verifier::rlimit(40)]
pub(crate) fn long_division(
    cs: &mut Circuit,
    a: &Vec<Boolean>,
    b: &Vec<Boolean>,
    zero: Boolean,
    one: Boolean,
) -> (out: (Vec<Boolean>, Vec<Boolean>))
    requires
        a@.len() == b@.len(),
        a@.len() > 0,
        !zero.value,
        one.value,
        unsigned_value(values(b@)) > 0,
    ensures
        out.0@.len() == a@.len(),
        out.1@.len() == a@.len(),
        unsigned_value(values(a@)) == unsigned_value(values(out.0@)) * unsigned_value(values(b@))
            + unsigned_value(values(out.1@)),
        unsigned_value(values(out.1@)) < unsigned_value(values(b@)),
        final(cs)@.tally() == old(cs)@.tally().plus(long_division_cost(a@.len())),
        final(cs)@.extends(old(cs)@),
        old(cs)@.binds_all(a@) && old(cs)@.binds_all(b@) && old(cs)@.binds(zero) && old(cs)@.binds(one) ==> final(cs)@.binds_all(out.0@) && final(cs)@.binds_all(out.1@) && (old(cs)@.sound() ==> final(cs)@.sound()),
{
    let n: usize = a.len();
    let ghost start = cs@;
    let ghost bound = start.binds_all(a@) && start.binds_all(b@) && start.binds(zero)
        && start.binds(one);
    let ghost va = values(a@);
    let ghost vb = values(b@);
    let ghost divisor = unsigned_value(vb) as int;
    let ghost lead = va.reverse();
    let mut extended = copy_wires(b);
    extended.push(zero);
    let flipped = complement_wires(&extended);
    let mut remainder = repeat_wire(zero, n);
    let mut leading: Vec<Boolean> = Vec::new();
    let mut k: usize = 0;
    proof {
        if bound {
            assert forall|i: int| 0 <= i < extended@.len() implies start.binds(
                #[trigger] extended@[i],
            ) by {
                if i < b@.len() {
                    assert(start.binds(b@[i]));
                }
            }
            assert(start.binds_all(extended@));
            assert(start.binds_all(flipped@));
        }
        assert(values(extended@) =~= vb.push(false));
        lemma_unsigned_push(vb, false);
        lemma_complement(values(extended@));
        lemma_unsigned_bound(vb);
        lemma_zeros(values(remainder@));
        assert(lead.take(0) =~= Seq::<bool>::empty());
        assert(values(leading@) =~= Seq::<bool>::empty());
        assert(0 * divisor == 0);
    }
    while k < n
        invariant
            k <= n,
            n == a@.len(),
            n > 0,
            va == values(a@),
            lead == va.reverse(),
            divisor == unsigned_value(vb),
            0 < divisor < weight(n as nat),
            flipped@.len() == n + 1,
            unsigned_value(values(flipped@)) + divisor + 1 == weight((n + 1) as nat),
            one.value,
            leading@.len() == k,
            remainder@.len() == n,
            leading_value(lead.take(k as int)) == leading_value(values(leading@)) * divisor
                + unsigned_value(values(remainder@)),
            unsigned_value(values(remainder@)) < divisor,
            cs@.tally() == start.tally().plus(division_row_cost(n as nat).times(k as nat)),
            cs@.extends(start),
            bound == (start.binds_all(a@) && start.binds_all(b@) && start.binds(zero)
                && start.binds(one)),
            bound ==> cs@.binds_all(a@) && cs@.binds_all(flipped@) && cs@.binds(one)
                && cs@.binds_all(leading@) && cs@.binds_all(remainder@) && (start.sound()
                ==> cs@.sound()),
        decreases n - k,
    {
        let ghost q = leading_value(values(leading@)) as int;
        let ghost r = unsigned_value(values(remainder@)) as int;
        let ghost before = values(leading@);
        let ghost earlier = cs@;
        let bit = a[n - 1 - k];
        let shifted = prepend(bit, &remainder);
        proof {
            if bound {
                assert(earlier.binds(a@[n - 1 - k]));
                assert(earlier.binds_all(shifted@));
            }
        }
        let (difference, carries) = ripple_add(cs, &shifted, &flipped, one, Mode::Private);
        let reached = carries[n];
        let ghost middle = cs@;
        proof {
            lemma_keep(earlier, middle, a@, flipped@, leading@, one, one);
            lemma_keep(earlier, middle, shifted@, shifted@, shifted@, one, one);
            assert(middle.binds(carries@[n as int]));
        }
        let next = select_each(cs, reached, &difference, &shifted, n);
        proof {
            lemma_keep(middle, cs@, a@, flipped@, leading@, one, reached);
        }
        leading.push(reached);
        proof {
            let vs = values(shifted@);
            let vd = values(difference@);
            assert(vs.drop_first() =~= values(remainder@));
            assert(vs[0] == bit.value);
            lemma_unsigned_first(vs);
            lemma_unsigned_bound(vd);
            lemma_unsigned_bound(vs);
            assert(weight((n + 1) as nat) == 2 * weight(n as nat));
            let chosen = if reached.value {
                vd
            } else {
                vs
            };
            assert(chosen.take(n as int) =~= chosen.drop_last());
            lemma_top_bit(chosen);
            assert(lead.take(k + 1).drop_last() =~= lead.take(k as int));
            assert(lead.take(k + 1).last() == va[n - 1 - k]);
            assert(values(leading@).drop_last() =~= before);
            assert(values(leading@).last() == reached.value);
            let c: int = if reached.value {
                1
            } else {
                0
            };
            let b: int = if bit.value {
                1
            } else {
                0
            };
            assert(c * divisor == if reached.value {
                divisor
            } else {
                0
            }) by (nonlinear_arith)
                requires
                    c == if reached.value {
                        1int
                    } else {
                        0int
                    },
            ;
            lemma_division_step(q, divisor, r, c, b, unsigned_value(values(next@)) as int);
        }
        remainder = next;
        k = k + 1;
    }
    let quotient = reverse_wires(&leading);
    proof {
        if bound {
            assert forall|i: int| 0 <= i < quotient@.len() implies cs@.binds(
                #[trigger] quotient@[i],
            ) by {
                assert(cs@.binds(leading@[n - 1 - i]));
            }
        }
        assert(lead.take(n as int) =~= lead);
        lemma_leading_is_reversed(lead);
        assert(lead.reverse() =~= va);
        lemma_leading_is_reversed(values(leading@));
        assert(values(quotient@) =~= values(leading@).reverse());
    }
    (quotient, remainder)
}

proof fn lemma_quotient(a: int, b: int, q: int, r: int)
    requires
        0 <= a,
        0 < b,
        a == q * b + r,
        0 <= r < b,
    ensures
        q == a / b,
        0 <= q <= a,
{
    lemma_fundamental_div_mod_converse(a, b, q, r);
    if q < 0 {
        assert(q * b <= -b) by (nonlinear_arith)
            requires
                q <= -1,
                b > 0,
        ;
    }
    assert(q * b >= q) by (nonlinear_arith)
        requires
            q >= 0,
            b >= 1,
    ;
}

/// What the check of the divisor takes: the two constants, and the chain and
/// the relation that keep the divisor from being zero.
pub open spec fn divisor_check_cost(n: nat) -> Tally {
    Tally { constants: 2, public_variables: 0, private_variables: 0, constraints: 0 }.plus(
        gates_cost((n - 1) as nat),
    ).plus(relations_cost(1))
}

/// Allocates the constants of a division and enforces that the divisor is not
/// zero. Returns a wire that reads false and one that reads true.
#[verifier::rlimit(40)]
fn divisor_check(cs: &mut Circuit, b: &Vec<Boolean>) -> (out: (Boolean, Boolean))
    requires
        b@.len() >= 1,
        unsigned_value(values(b@)) != 0,
    ensures
        !out.0.value,
        out.1.value,
        final(cs)@.tally() == old(cs)@.tally().plus(divisor_check_cost(b@.len())),
        final(cs)@.extends(old(cs)@),
        final(cs)@.binds(out.0),
        final(cs)@.binds(out.1),
        old(cs)@.sound() && old(cs)@.binds_all(b@) ==> final(cs)@.sound(),
{
    let n: usize = b.len();
    let ghost start = cs@;
    let zero = cs.allocate(Mode::Constant, false);
    let ghost s1 = cs@;
    let one = cs.allocate(Mode::Constant, true);
    let ghost s2 = cs@;
    proof {
        lemma_keep(start, s1, b@, b@, b@, zero, zero);
        lemma_keep(s1, s2, b@, b@, b@, zero, zero);
        assert(values(b@).take(n as int) =~= values(b@));
    }
    let empty = clear_chain(cs, b, n);
    let ghost s3 = cs@;
    proof {
        lemma_keep(s2, s3, b@, b@, b@, zero, one);
    }
    cs.enforce_equal(empty, zero, zero);
    proof {
        lemma_keep(s3, cs@, b@, b@, b@, zero, one);
    }
    (zero, one)
}

/// Divides two sequences of wires as two's complement integers of type `ty`.
#[verifier::rlimit(40)]
fn divide_signed_wires(
    cs: &mut Circuit,
    ty: IntegerType,
    a: &Vec<Boolean>,
    b: &Vec<Boolean>,
    zero: Boolean,
    one: Boolean,
    mode: Mode,
) -> (out: Option<Vec<Boolean>>)
    requires
        ty.spec_is_signed(),
        a@.len() == ty.spec_width(),
        b@.len() == ty.spec_width(),
        !zero.value,
        one.value,
        value_of(values(b@), true) != 0,
    ensures
        ({
            let dividend = value_of(values(a@), true);
            let divisor = value_of(values(b@), true);
            &&& out is Some <==> ty.contains(quotient(dividend, divisor))
            &&& out matches Some(r) ==> {
                &&& r@.len() == ty.spec_width()
                &&& value_of(values(r@), true) == quotient(dividend, divisor)
                &&& forall|i: int|
                    0 <= i < r@.len() ==> (#[trigger] r@[i]).mode == mode && !r@[i].inverted
                &&& final(cs)@.tally() == old(cs)@.tally().plus(
                    conditional_negate_cost(Mode::Private, ty.spec_width() as nat),
                ).plus(conditional_negate_cost(Mode::Private, ty.spec_width() as nat)).plus(
                    long_division_cost(ty.spec_width() as nat),
                ).plus(full_adder_cost(Mode::Private)).plus(
                    with_sign_cost(mode, ty.spec_width() as nat),
                )
                &&& final(cs)@.extends(old(cs)@)
                &&& final(cs)@.binds_all(r@)
                &&& old(cs)@.sound() && old(cs)@.binds_all(a@) && old(cs)@.binds_all(b@)
                    && old(cs)@.binds(zero) && old(cs)@.binds(one) ==> final(cs)@.sound()
            }
        }),
{
    let n: usize = ty.width();
    let ghost va = values(a@);
    let ghost vb = values(b@);
    let ghost s4 = cs@;
    proof {
        lemma_signed_bound(va);
        lemma_signed_bound(vb);
    }
    let first = magnitude(cs, a, zero);
    let ghost s5 = cs@;
    proof {
        lemma_keep(s4, s5, a@, b@, a@, zero, one);
    }
    let second = magnitude(cs, b, zero);
    let ghost s6 = cs@;
    proof {
        lemma_keep(s5, s6, a@, b@, first@, zero, one);
    }
    let (q, _remainder) = long_division(cs, &first, &second, zero, one);
    let ghost s7 = cs@;
    proof {
        lemma_keep(s6, s7, a@, b@, a@, zero, one);
        if s7.binds_all(a@) && s7.binds_all(b@) {
            assert(s7.binds(a@[n - 1]));
            assert(s7.binds(b@[n - 1]));
        }
    }
    let (sign, _carry) = cs.full_adder(a[n - 1], b[n - 1], zero, Mode::Private);
    proof {
        lemma_keep(s7, cs@, q@, q@, q@, zero, zero);
        assert(va.last() == a@[n - 1].value);
        assert(vb.last() == b@[n - 1].value);
        lemma_quotient(
            unsigned_value(values(first@)) as int,
            unsigned_value(values(second@)) as int,
            unsigned_value(values(q@)) as int,
            unsigned_value(values(_remainder@)) as int,
        );
        lemma_weight_positive((n - 1) as nat);
    }
    with_sign(cs, &q, sign, zero, mode)
}

/// Divides two sequences of wires as unsigned integers of type `ty`.
#[verifier::rlimit(40)]
fn divide_unsigned_wires(
    cs: &mut Circuit,
    ty: IntegerType,
    a: &Vec<Boolean>,
    b: &Vec<Boolean>,
    zero: Boolean,
    one: Boolean,
    mode: Mode,
) -> (r: Vec<Boolean>)
    requires
        !ty.spec_is_signed(),
        a@.len() == ty.spec_width(),
        b@.len() == ty.spec_width(),
        !zero.value,
        one.value,
        unsigned_value(values(b@)) != 0,
    ensures
        ({
            let dividend = unsigned_value(values(a@)) as int;
            let divisor = unsigned_value(values(b@)) as int;
            &&& ty.contains(quotient(dividend, divisor))
            &&& r@.len() == ty.spec_width()
            &&& unsigned_value(values(r@)) == quotient(dividend, divisor)
            &&& forall|i: int|
                0 <= i < r@.len() ==> (#[trigger] r@[i]).mode == mode && !r@[i].inverted
            &&& final(cs)@.tally() == old(cs)@.tally().plus(
                long_division_cost(ty.spec_width() as nat),
            ).plus(ripple_cost(mode, ty.spec_width() as nat))
            &&& final(cs)@.extends(old(cs)@)
            &&& final(cs)@.binds_all(r@)
            &&& old(cs)@.sound() && old(cs)@.binds_all(a@) && old(cs)@.binds_all(b@) && old(cs)@.binds(zero) && old(cs)@.binds(one) ==> final(cs)@.sound()
        }),
{
    let n: usize = ty.width();
    let ghost va = values(a@);
    let ghost vb = values(b@);
    let ghost s4 = cs@;
    let (q, _remainder) = long_division(cs, a, b, zero, one);
    let zeros = repeat_wire(zero, n);
    proof {
        lemma_keep(s4, cs@, a@, b@, a@, zero, one);
    }
    let (result, _carries) = ripple_add(cs, &q, &zeros, zero, mode);
    proof {
        lemma_unsigned_bound(va);
        lemma_quotient(
            unsigned_value(va) as int,
            unsigned_value(vb) as int,
            unsigned_value(values(q@)) as int,
            unsigned_value(values(_remainder@)) as int,
        );
        lemma_zeros(values(zeros@));
        lemma_unsigned_bound(values(q@));
        lemma_unsigned_bound(values(result@));
    }
    result
}

/// Divides two sequences of wires as integers of type `ty` on the constrained
/// path. Returns the wires of the quotient, allocated in `mode`.
#[verifier::rlimit(40)]
pub(crate) fn divide_wires(
    cs: &mut Circuit,
    ty: IntegerType,
    a: &Vec<Boolean>,
    b: &Vec<Boolean>,
    mode: Mode,
) -> (out: Result<Vec<Boolean>, Halt>)
    requires
        a@.len() == ty.spec_width(),
        b@.len() == ty.spec_width(),
    ensures
        ({
            let dividend = value_of(values(a@), ty.spec_is_signed());
            let divisor = value_of(values(b@), ty.spec_is_signed());
            &&& out is Ok <==> divisor != 0 && ty.contains(quotient(dividend, divisor))
            &&& out matches Ok(r) ==> {
                &&& r@.len() == ty.spec_width()
                &&& value_of(values(r@), ty.spec_is_signed()) == quotient(dividend, divisor)
                &&& forall|i: int|
                    0 <= i < r@.len() ==> (#[trigger] r@[i]).mode == mode && !r@[i].inverted
                &&& final(cs)@.tally() == old(cs)@.tally().plus(divide_wires_cost(ty, mode))
                &&& final(cs)@.extends(old(cs)@)
                &&& final(cs)@.binds_all(r@)
                &&& old(cs)@.sound() && old(cs)@.binds_all(a@) && old(cs)@.binds_all(b@)
                    ==> final(cs)@.sound()
            }
            &&& out matches Err(halt) ==> halt == if divisor == 0 {
                Halt::DivisionByZero { ty }
            } else {
                Halt::Overflow { opcode: Opcode::Div, ty }
            }
        }),
{
    let n: usize = ty.width();
    let ghost va = values(a@);
    let ghost vb = values(b@);
    proof {
        assert(vb.take(n as int) =~= vb);
        lemma_signed_bound(vb);
        lemma_unsigned_bound(vb);
    }
    if all_clear(b, n) {
        return Err(Halt::DivisionByZero { ty });
    }
    let ghost start = cs@;
    let (zero, one) = divisor_check(cs, b);
    proof {
        lemma_keep(start, cs@, a@, b@, a@, zero, zero);
    }
    if ty.is_signed() {
        match divide_signed_wires(cs, ty, a, b, zero, one, mode) {
            Some(result) => Ok(result),
            None => Err(Halt::Overflow { opcode: Opcode::Div, ty }),
        }
    } else {
        Ok(divide_unsigned_wires(cs, ty, a, b, zero, one, mode))
    }
}

/// The native quotient, where it is defined and the type can hold it.
fn native_divide(ty: IntegerType, x: Native, y: Native) -> (out: Option<Native>)
    requires
        x.spec_fits(ty),
        y.spec_fits(ty),
        y.as_int() != 0,
    ensures
        out is Some <==> ty.contains(quotient(x.as_int(), y.as_int())),
        out matches Some(r) ==> r.spec_fits(ty) && r.as_int() == quotient(x.as_int(), y.as_int()),
{
    proof {
        lemma_weight_values();
    }
    match (x, y) {
        (Native::Signed(v), Native::Signed(w)) => {
            proof {
                if v == 0 {
                    assert(0int / magnitude_of(w as int) == 0) by (nonlinear_arith)
                        requires
                            magnitude_of(w as int) > 0,
                    ;
                }
                lemma_native_quotient(v as int, w as int);
            }
            match v.checked_div(w) {
                Some(q) => if Native::Signed(q).fits(ty) {
                    Some(Native::Signed(q))
                } else {
                    None
                },
                None => None,
            }
        },
        (Native::Unsigned(v), Native::Unsigned(w)) => {
            let q: u128 = v / w;
            proof {
                lemma_native_quotient(v as int, w as int);
            }
            Some(Native::Unsigned(q))
        },
        _ => None,
    }
}

/// The magnitude of the quotient is at most that of the dividend.
proof fn lemma_native_quotient(a: int, b: int)
    requires
        b != 0,
    ensures
        0 <= magnitude_of(a) / magnitude_of(b) <= magnitude_of(a),
        -magnitude_of(a) <= quotient(a, b) <= magnitude_of(a),
{
    let x = magnitude_of(a);
    let d = magnitude_of(b);
    let q = x / d;
    let r = x % d;
    vstd::arithmetic::div_mod::lemma_fundamental_div_mod(x, d);
    vstd::arithmetic::div_mod::lemma_mod_pos_bound(x, d);
    assert(x == d * q + r);
    if q < 0 {
        assert(d * q <= -d) by (nonlinear_arith)
            requires
                q <= -1,
                d > 0,
        ;
    }
    assert(d * q >= q) by (nonlinear_arith)
        requires
            q >= 0,
            d >= 1,
    ;
}

impl Integer {
    /// The quotient of two integers of one type, rounded toward zero.
    ///
    /// Halts when the types differ, when the divisor is zero, and when the
    /// type cannot hold the quotient, which is only so for the least value of
    /// a signed type divided by minus one.
    pub fn divide(&self, cs: &mut Circuit, other: &Integer) -> (out: Result<Integer, Halt>)
        ensures
            out is Ok <==> {
                &&& self@.ty == other@.ty
                &&& other@.value() != 0
                &&& self@.ty.contains(quotient(self@.value(), other@.value()))
            },
            out matches Ok(r) ==> {
                &&& r@.wf()
                &&& r@.ty == self@.ty
                &&& r@.value() == quotient(self@.value(), other@.value())
                &&& r@.mode() == self@.mode().spec_join(other@.mode())
                &&& final(cs)@.tally() == old(cs)@.tally().plus(
                    divide_cost(self@.ty, self@.mode(), other@.mode()),
                )
                &&& final(cs)@.extends(old(cs)@)
                &&& final(cs)@.binds_all(r@.wires)
                &&& old(cs)@.sound() && old(cs)@.binds_all(self@.wires) && old(cs)@.binds_all(other@.wires) ==> final(cs)@.sound()
            },
            out matches Err(halt) ==> halt == if self@.ty != other@.ty {
                Halt::InvalidInstruction { opcode: Opcode::Div }
            } else if other@.value() == 0 {
                Halt::DivisionByZero { ty: self@.ty }
            } else {
                Halt::Overflow { opcode: Opcode::Div, ty: self@.ty }
            },
    {
        let ty = self.ty();
        if ty != other.ty() {
            return Err(Halt::InvalidInstruction { opcode: Opcode::Div });
        }
        let mode = self.mode().join(other.mode());
        proof {
            lemma_constant_mode(self@);
            lemma_constant_mode(other@);
        }
        match (self.cached(), other.cached()) {
            (Some(x), Some(y)) => {
                let by_zero = match y {
                    Native::Signed(w) => w == 0,
                    Native::Unsigned(w) => w == 0,
                };
                if by_zero {
                    return Err(Halt::DivisionByZero { ty });
                }
                match native_divide(ty, x, y) {
                    Some(r) => {
                        let out = Integer::constant(cs, ty, r);
                        Ok(out.unwrap())
                    },
                    None => Err(Halt::Overflow { opcode: Opcode::Div, ty }),
                }
            },
            _ => {
                match divide_wires(cs, ty, self.bits(), other.bits(), mode) {
                    Ok(wires) => {
                        let out = Integer::from_bits_le(ty, &wires);
                        proof {
                            lemma_uniform_mode(IntegerView { ty, wires: wires@ }, mode);
                        }
                        Ok(out.unwrap())
                    },
                    Err(halt) => Err(halt),
                }
            },
        }
    }
}

/// The quotient is rounded toward zero: what is left of the dividend is smaller
/// in magnitude than the divisor and has the sign of the dividend, or is
/// zero.
pub proof fn lemma_quotient_truncates(a: int, b: int)
    requires
        b != 0,
    ensures
        ({
            let left = a - quotient(a, b) * b;
            &&& magnitude_of(left) < magnitude_of(b)
            &&& a >= 0 ==> left >= 0
            &&& a <= 0 ==> left <= 0
            &&& magnitude_of(quotient(a, b)) <= magnitude_of(a)
        }),
{
    let x = magnitude_of(a);
    let d = magnitude_of(b);
    let q = x / d;
    lemma_native_quotient(a, b);
    vstd::arithmetic::div_mod::lemma_fundamental_div_mod(x, d);
    vstd::arithmetic::div_mod::lemma_mod_pos_bound(x, d);
    assert(x == d * q + x % d);
    assert(q * d == d * q) by (nonlinear_arith);
    assert((-q) * d == -(q * d)) by (nonlinear_arith);
    assert(q * (-d) == -(q * d)) by (nonlinear_arith);
    assert((-q) * (-d) == q * d) by (nonlinear_arith);
}

/// Dividing the least value of a signed type by minus one overflows, and no
/// other division does.
pub proof fn lemma_division_overflow(ty: IntegerType, a: int, b: int)
    requires
        ty.contains(a),
        ty.contains(b),
        b != 0,
    ensures
        !ty.contains(quotient(a, b)) <==> ty.spec_is_signed() && a == ty.min_value() && b == -1,
{
    lemma_native_quotient(a, b);
    lemma_weight_positive((ty.spec_width() - 1) as nat);
    lemma_weight_positive(ty.spec_width() as nat);
    let x = magnitude_of(a);
    let d = magnitude_of(b);
    if d == 1 {
        assert(x / 1 == x);
    } else {
        let q = x / d;
        let r = x % d;
        vstd::arithmetic::div_mod::lemma_fundamental_div_mod(x, d);
        vstd::arithmetic::div_mod::lemma_mod_pos_bound(x, d);
        assert(d * q >= 2 * q) by (nonlinear_arith)
            requires
                q >= 0,
                d >= 2,
        ;
    }
}

} // verus!
