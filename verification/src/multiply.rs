//! Multiplication of integers.
//!
//! The constrained path multiplies magnitudes by shift and add: one row of
//! partial products per wire of the second operand, added into a window that
//! moves up by one position per row, which gives the full double-width
//! product. The product is then checked to fit the type and, for a signed
//! type, given its sign. A signed operand is first taken to its magnitude by a
//! conditional two's complement negation.

use crate::arithmetic::{repeat_wire, ripple_add, ripple_cost};
use crate::bits::{
    complement, lemma_complement, lemma_signed_bound, lemma_top_bit, lemma_unsigned_bound,
    lemma_unsigned_first, lemma_unsigned_push, lemma_weight_positive, lemma_weight_values,
    lemma_zero_value, lemma_zeros, unsigned_value, value_of, weight,
};
use crate::circuit::{
    full_adder_cost, gate_cost, lemma_binds_all_extends, lemma_binds_extends, lemma_binds_not,
    lemma_keep, values, Boolean, Circuit, CircuitView, Constraint, Tally,
};
use crate::halt::{Halt, Opcode};
use crate::integer::{
    lemma_constant_mode, lemma_uniform_mode, wires_cost, Integer, IntegerType, IntegerView, Native,
};
use crate::mode::Mode;
use vstd::prelude::*;

verus! {

/// What `n` gates with private outputs take.
pub open spec fn gates_cost(n: nat) -> Tally {
    Tally { constants: 0, public_variables: 0, private_variables: n, constraints: 2 * n }
}

/// What `n` full adders with private outputs take.
pub open spec fn adders_cost(n: nat) -> Tally {
    Tally { constants: 0, public_variables: 0, private_variables: 2 * n, constraints: 3 * n }
}

/// What `n` relations without new wires take.
pub open spec fn relations_cost(n: nat) -> Tally {
    Tally { constants: 0, public_variables: 0, private_variables: 0, constraints: n }
}

/// What a conditional negation of `n` wires takes: a row of exclusive-ors
/// with the sign, and a chain that adds the sign.
pub open spec fn conditional_negate_cost(mode: Mode, n: nat) -> Tally {
    adders_cost(n).plus(ripple_cost(mode, n))
}

/// What giving a magnitude of `n` wires its sign takes: the check that the
/// signed result fits, and a conditional negation.
pub open spec fn with_sign_cost(mode: Mode, n: nat) -> Tally {
    gates_cost((n - 2) as nat).plus(gate_cost(Mode::Private)).plus(relations_cost(1)).plus(
        conditional_negate_cost(mode, n),
    )
}

/// What one row of a multiplication takes: the partial products, and the
/// chain that adds them into the window.
pub open spec fn row_cost(mode: Mode, n: nat) -> Tally {
    gates_cost(n).plus(ripple_cost(mode, n))
}

/// What the double-width product of two sequences of `n` wires takes.
pub open spec fn wide_cost(mode: Mode, n: nat) -> Tally {
    row_cost(mode, n).times(n)
}

/// What multiplying two integers of type `ty` on the constrained path takes,
/// with result wires of the given mode.
pub open spec fn multiply_wires_cost(ty: IntegerType, mode: Mode) -> Tally {
    let n = ty.spec_width() as nat;
    if ty.spec_is_signed() {
        Tally { constants: 1, public_variables: 0, private_variables: 0, constraints: 0 }.plus(
            conditional_negate_cost(Mode::Private, n),
        ).plus(conditional_negate_cost(Mode::Private, n)).plus(wide_cost(Mode::Private, n)).plus(
            full_adder_cost(Mode::Private),
        ).plus(relations_cost(n)).plus(with_sign_cost(mode, n))
    } else {
        Tally { constants: 1, public_variables: 0, private_variables: 0, constraints: 0 }.plus(
            wide_cost(mode, n),
        ).plus(relations_cost(n))
    }
}

/// What multiplying two integers of type `ty` and modes `first` and `second`
/// takes.
pub open spec fn multiply_cost(ty: IntegerType, first: Mode, second: Mode) -> Tally {
    let mode = first.spec_join(second);
    if mode == Mode::Constant {
        wires_cost(Mode::Constant, ty.spec_width() as nat)
    } else {
        multiply_wires_cost(ty, mode)
    }
}

/// Multiplies every wire of `bits` by the wire `b`.
pub(crate) fn and_each(cs: &mut Circuit, bits: &Vec<Boolean>, b: Boolean) -> (out: Vec<Boolean>)
    ensures
        out@.len() == bits@.len(),
        forall|i: int| 0 <= i < bits@.len() ==> (#[trigger] out@[i]).value == (bits@[i].value && b.value),
        unsigned_value(values(out@)) == if b.value {
            unsigned_value(values(bits@))
        } else {
            0
        },
        final(cs)@.tally() == old(cs)@.tally().plus(gates_cost(bits@.len())),
        final(cs)@.extends(old(cs)@),
        final(cs)@.binds_all(out@),
        old(cs)@.sound() && old(cs)@.binds_all(bits@) && old(cs)@.binds(b) ==> final(cs)@.sound(),
{
    let ghost start = cs@;
    let ghost ok = start.sound() && start.binds_all(bits@) && start.binds(b);
    let mut out: Vec<Boolean> = Vec::new();
    let mut i: usize = 0;
    while i < bits.len()
        invariant
            i <= bits.len(),
            out@.len() == i,
            forall|j: int| 0 <= j < i ==> (#[trigger] out@[j]).value == (bits@[j].value && b.value),
            cs@.tally() == start.tally().plus(gates_cost(i as nat)),
            cs@.extends(start),
            cs@.binds_all(out@),
            ok == (start.sound() && start.binds_all(bits@) && start.binds(b)),
            ok ==> cs@.sound(),
        decreases bits.len() - i,
    {
        let ghost earlier = cs@;
        proof {
            if ok {
                lemma_binds_extends(start, earlier, bits@[i as int]);
                lemma_binds_extends(start, earlier, b);
            }
        }
        let wire = cs.and(bits[i], b, Mode::Private);
        proof {
            lemma_binds_all_extends(earlier, cs@, out@);
        }
        out.push(wire);
        i = i + 1;
    }
    proof {
        if b.value {
            assert(values(out@) =~= values(bits@));
        } else {
            lemma_zeros(values(out@));
        }
    }
    out
}

/// The exclusive-or of every wire of `bits` with the wire `s`. `zero` is a
/// wire that reads false.
pub(crate) fn xor_each(cs: &mut Circuit, bits: &Vec<Boolean>, s: Boolean, zero: Boolean) -> (out:
    Vec<Boolean>)
    requires
        !zero.value,
    ensures
        out@.len() == bits@.len(),
        forall|i: int| 0 <= i < bits@.len() ==> (#[trigger] out@[i]).value == (bits@[i].value != s.value),
        values(out@) == if s.value {
            complement(values(bits@))
        } else {
            values(bits@)
        },
        final(cs)@.tally() == old(cs)@.tally().plus(adders_cost(bits@.len())),
        final(cs)@.extends(old(cs)@),
        final(cs)@.binds_all(out@),
        old(cs)@.sound() && old(cs)@.binds_all(bits@) && old(cs)@.binds(s) && old(cs)@.binds(zero) ==> final(cs)@.sound(),
{
    let ghost start = cs@;
    let ghost ok = start.sound() && start.binds_all(bits@) && start.binds(s) && start.binds(zero);
    let mut out: Vec<Boolean> = Vec::new();
    let mut i: usize = 0;
    while i < bits.len()
        invariant
            i <= bits.len(),
            !zero.value,
            out@.len() == i,
            forall|j: int| 0 <= j < i ==> (#[trigger] out@[j]).value == (bits@[j].value != s.value),
            cs@.tally() == start.tally().plus(adders_cost(i as nat)),
            cs@.extends(start),
            cs@.binds_all(out@),
            ok == (start.sound() && start.binds_all(bits@) && start.binds(s) && start.binds(zero)),
            ok ==> cs@.sound(),
        decreases bits.len() - i,
    {
        let ghost earlier = cs@;
        proof {
            if ok {
                lemma_binds_extends(start, earlier, bits@[i as int]);
                lemma_binds_extends(start, earlier, s);
                lemma_binds_extends(start, earlier, zero);
            }
        }
        let (sum, _carry) = cs.full_adder(bits[i], s, zero, Mode::Private);
        proof {
            lemma_binds_all_extends(earlier, cs@, out@);
        }
        out.push(sum);
        i = i + 1;
    }
    proof {
        if s.value {
            assert(values(out@) =~= complement(values(bits@)));
        } else {
            assert(values(out@) =~= values(bits@));
        }
    }
    out
}

/// The two's complement negation of `bits` where `s` reads true, and `bits`
/// itself where it reads false: every wire is flipped by `s`, and `s` is
/// added. Returns the result wires, allocated in `mode`, and the last carry.
pub(crate) fn conditional_negate(
    cs: &mut Circuit,
    bits: &Vec<Boolean>,
    s: Boolean,
    zero: Boolean,
    mode: Mode,
) -> (out: (Vec<Boolean>, Boolean))
    requires
        bits@.len() > 0,
        !zero.value,
    ensures
        out.0@.len() == bits@.len(),
        unsigned_value(values(out.0@)) + (if out.1.value {
            weight(bits@.len())
        } else {
            0
        }) == if s.value {
            weight(bits@.len()) - unsigned_value(values(bits@))
        } else {
            unsigned_value(values(bits@)) as int
        },
        forall|i: int|
            0 <= i < bits@.len() ==> (#[trigger] out.0@[i]).mode == mode && !out.0@[i].inverted,
        final(cs)@.tally() == old(cs)@.tally().plus(conditional_negate_cost(mode, bits@.len())),
        final(cs)@.extends(old(cs)@),
        final(cs)@.binds_all(out.0@),
        final(cs)@.binds(out.1),
        old(cs)@.sound() && old(cs)@.binds_all(bits@) && old(cs)@.binds(s) && old(cs)@.binds(zero) ==> final(cs)@.sound(),
{
    let n: usize = bits.len();
    let ghost start = cs@;
    let flipped = xor_each(cs, bits, s, zero);
    let zeros = repeat_wire(zero, n);
    proof {
        lemma_keep(start, cs@, bits@, bits@, bits@, s, zero);
    }
    let (sums, carries) = ripple_add(cs, &flipped, &zeros, s, mode);
    proof {
        lemma_zeros(values(zeros@));
        lemma_complement(values(bits@));
        assert(cs@.binds(carries@[n - 1]));
    }
    (sums, carries[n - 1])
}

/// The wires of `sums` from the second on, then `top`.
fn shift_in(sums: &Vec<Boolean>, top: Boolean) -> (out: Vec<Boolean>)
    requires
        sums@.len() > 0,
    ensures
        out@ == sums@.drop_first().push(top),
        forall|cs: CircuitView|
            cs.binds_all(sums@) && cs.binds(top) ==> #[trigger] cs.binds_all(out@),
{
    let n: usize = sums.len();
    let mut out: Vec<Boolean> = Vec::new();
    let mut k: usize = 1;
    while k < n
        invariant
            1 <= k <= n,
            n == sums@.len(),
            out@.len() == k - 1,
            forall|j: int| 0 <= j < k - 1 ==> out@[j] == sums@[j + 1],
        decreases n - k,
    {
        out.push(sums[k]);
        k = k + 1;
    }
    out.push(top);
    assert(out@ =~= sums@.drop_first().push(top));
    assert forall|cs: CircuitView| cs.binds_all(sums@) && cs.binds(top) implies #[trigger] cs.binds_all(
        out@,
    ) by {
        assert forall|i: int| 0 <= i < out@.len() implies cs.binds(#[trigger] out@[i]) by {
            if i < out@.len() - 1 {
                assert(cs.binds(sums@[i + 1]));
            }
        }
    }
    out
}

proof fn lemma_row(
    low: int,
    high: int,
    w: int,
    s0: int,
    next_high: int,
    products: int,
    x: int,
    y: int,
    b: int,
)
    requires
        low + w * high == x * y,
        high + products == s0 + 2 * next_high,
        products == b * x,
    ensures
        (low + s0 * w) + (2 * w) * next_high == x * (y + b * w),
{
    assert((low + s0 * w) + (2 * w) * next_high == low + w * (s0 + 2 * next_high))
        by (nonlinear_arith);
    assert(w * (high + products) == w * high + w * products) by (nonlinear_arith);
    assert(w * (b * x) == x * (b * w)) by (nonlinear_arith);
    assert(x * (y + b * w) == x * y + x * (b * w)) by (nonlinear_arith);
}

/// The double-width product of two sequences of wires of one length, as its
/// lower and its upper half. The wires of the lower half are allocated in
/// `mode`.
#[verifier::rlimit(40)]
pub(crate) fn multiply_wide(
    cs: &mut Circuit,
    x: &Vec<Boolean>,
    y: &Vec<Boolean>,
    zero: Boolean,
    mode: Mode,
) -> (out: (Vec<Boolean>, Vec<Boolean>))
    requires
        x@.len() == y@.len(),
        x@.len() > 0,
        !zero.value,
    ensures
        out.0@.len() == x@.len(),
        out.1@.len() == x@.len(),
        unsigned_value(values(out.0@)) + weight(x@.len()) * unsigned_value(values(out.1@))
            == unsigned_value(values(x@)) * unsigned_value(values(y@)),
        forall|i: int|
            0 <= i < x@.len() ==> (#[trigger] out.0@[i]).mode == mode && !out.0@[i].inverted,
        final(cs)@.tally() == old(cs)@.tally().plus(wide_cost(mode, x@.len())),
        final(cs)@.extends(old(cs)@),
        final(cs)@.binds_all(out.0@),
        old(cs)@.binds_all(x@) && old(cs)@.binds_all(y@) && old(cs)@.binds(zero) ==> final(cs)@.binds_all(out.1@) && (old(cs)@.sound() ==> final(cs)@.sound()),
{
    let n: usize = x.len();
    let ghost start = cs@;
    let ghost bound = start.binds_all(x@) && start.binds_all(y@) && start.binds(zero);
    let ghost vx = values(x@);
    let ghost vy = values(y@);
    let mut low: Vec<Boolean> = Vec::new();
    let mut high: Vec<Boolean> = repeat_wire(zero, n);
    let mut j: usize = 0;
    proof {
        lemma_zeros(values(high@));
        assert(vy.take(0) =~= Seq::<bool>::empty());
        assert(values(low@) =~= Seq::<bool>::empty());
        assert(weight(0) * 0 == 0);
        assert(unsigned_value(vx) * 0 == 0);
    }
    while j < n
        invariant
            j <= n,
            n == x@.len(),
            n == y@.len(),
            n > 0,
            !zero.value,
            vx == values(x@),
            vy == values(y@),
            low@.len() == j,
            high@.len() == n,
            unsigned_value(values(low@)) + weight(j as nat) * unsigned_value(values(high@))
                == unsigned_value(vx) * unsigned_value(vy.take(j as int)),
            forall|i: int| 0 <= i < j ==> (#[trigger] low@[i]).mode == mode && !low@[i].inverted,
            cs@.tally() == start.tally().plus(row_cost(mode, n as nat).times(j as nat)),
            cs@.extends(start),
            cs@.binds_all(low@),
            bound == (start.binds_all(x@) && start.binds_all(y@) && start.binds(zero)),
            bound ==> cs@.binds_all(high@) && cs@.binds_all(x@) && cs@.binds_all(y@) && cs@.binds(zero) && (start.sound() ==> cs@.sound()),
        decreases n - j,
    {
        let ghost l = unsigned_value(values(low@)) as int;
        let ghost h = unsigned_value(values(high@)) as int;
        let ghost low_before = values(low@);
        let ghost earlier = cs@;
        proof {
            if bound {
                assert(earlier.binds(y@[j as int]));
            }
        }
        let products = and_each(cs, x, y[j]);
        let ghost middle = cs@;
        proof {
            lemma_keep(earlier, middle, low@, high@, x@, zero, zero);
            lemma_keep(earlier, middle, y@, y@, y@, zero, zero);
        }
        let (sums, carries) = ripple_add(cs, &high, &products, zero, mode);
        proof {
            lemma_keep(middle, cs@, low@, x@, y@, zero, zero);
            assert(cs@.binds(sums@[0]));
            assert(cs@.binds(carries@[n - 1]));
        }
        low.push(sums[0]);
        let next = shift_in(&sums, carries[n - 1]);
        proof {
            let vs = values(sums@);
            let c = carries@[n - 1].value;
            lemma_unsigned_first(vs);
            assert(values(next@) =~= vs.drop_first().push(c));
            lemma_unsigned_push(vs.drop_first(), c);
            assert(values(low@) =~= low_before.push(sums@[0].value));
            lemma_unsigned_push(low_before, sums@[0].value);
            assert(vy.take(j + 1).drop_last() =~= vy.take(j as int));
            assert(vy.take(j + 1).last() == y@[j as int].value);
            let b: int = if y@[j as int].value {
                1
            } else {
                0
            };
            let s0: int = if sums@[0].value {
                1
            } else {
                0
            };
            assert(b * unsigned_value(vx) == unsigned_value(values(products@))) by {
                if y@[j as int].value {
                    assert(1 * unsigned_value(vx) == unsigned_value(vx));
                } else {
                    assert(0 * unsigned_value(vx) == 0);
                }
            }
            assert(b * weight(j as nat) == if y@[j as int].value {
                weight(j as nat)
            } else {
                0
            }) by (nonlinear_arith)
                requires
                    b == if y@[j as int].value {
                        1int
                    } else {
                        0int
                    },
            ;
            assert(s0 * weight(j as nat) == if sums@[0].value {
                weight(j as nat)
            } else {
                0
            }) by (nonlinear_arith)
                requires
                    s0 == if sums@[0].value {
                        1int
                    } else {
                        0int
                    },
            ;
            lemma_row(
                l,
                h,
                weight(j as nat) as int,
                s0,
                unsigned_value(values(next@)) as int,
                unsigned_value(values(products@)) as int,
                unsigned_value(vx) as int,
                unsigned_value(vy.take(j as int)) as int,
                b,
            );
        }
        high = next;
        j = j + 1;
    }
    proof {
        assert(vy.take(n as int) =~= vy);
    }
    (low, high)
}

/// Whether the first `k` wires all read false.
pub(crate) fn all_clear(bits: &Vec<Boolean>, k: usize) -> (clear: bool)
    requires
        k <= bits@.len(),
    ensures
        clear == (unsigned_value(values(bits@).take(k as int)) == 0),
{
    let ghost part = values(bits@).take(k as int);
    let mut i: usize = 0;
    while i < k
        invariant
            i <= k <= bits@.len(),
            part == values(bits@).take(k as int),
            forall|j: int| 0 <= j < i ==> !part[j],
        decreases k - i,
    {
        if bits[i].value {
            proof {
                assert(part[i as int]);
                if unsigned_value(part) == 0 {
                    lemma_zero_value(part);
                }
            }
            return false;
        }
        i = i + 1;
    }
    proof {
        lemma_zeros(part);
    }
    true
}

/// A wire that reads true exactly when the first `k` wires of `bits` all read
/// false.
#[verifier::rlimit(40)]
pub(crate) fn clear_chain(cs: &mut Circuit, bits: &Vec<Boolean>, k: usize) -> (out: Boolean)
    requires
        1 <= k <= bits@.len(),
    ensures
        out.value == (unsigned_value(values(bits@).take(k as int)) == 0),
        final(cs)@.tally() == old(cs)@.tally().plus(gates_cost((k - 1) as nat)),
        final(cs)@.extends(old(cs)@),
        old(cs)@.binds_all(bits@) ==> final(cs)@.binds(out) && (old(cs)@.sound() ==> final(cs)@.sound()),
{
    let ghost start = cs@;
    let ghost bound = start.binds_all(bits@);
    let ghost part = values(bits@).take(k as int);
    let mut out = bits[0].not();
    proof {
        if bound {
            assert(start.binds(bits@[0]));
        }
    }
    let mut i: usize = 1;
    proof {
        assert(part[0] == bits@[0].value);
    }
    while i < k
        invariant
            1 <= i <= k <= bits@.len(),
            part == values(bits@).take(k as int),
            out.value == forall|j: int| 0 <= j < i ==> !part[j],
            cs@.tally() == start.tally().plus(gates_cost((i - 1) as nat)),
            cs@.extends(start),
            bound == start.binds_all(bits@),
            bound ==> cs@.binds(out) && (start.sound() ==> cs@.sound()),
        decreases k - i,
    {
        let ghost before = out.value;
        proof {
            if bound {
                lemma_binds_extends(start, cs@, bits@[i as int]);
            }
        }
        out = cs.and(out, bits[i].not(), Mode::Private);
        proof {
            assert(part[i as int] == bits@[i as int].value);
            if out.value {
                assert forall|j: int| 0 <= j < i + 1 implies !part[j] by {
                    if j < i {
                    }
                }
            } else if before {
                assert(part[i as int]);
            }
        }
        i = i + 1;
    }
    proof {
        if out.value {
            lemma_zeros(part);
        } else if unsigned_value(part) == 0 {
            lemma_zero_value(part);
        }
    }
    out
}

/// Enforces that each of the wires reads false.
pub(crate) fn enforce_clear(cs: &mut Circuit, bits: &Vec<Boolean>, zero: Boolean)
    ensures
        final(cs)@.tally() == old(cs)@.tally().plus(relations_cost(bits@.len())),
        final(cs)@.extends(old(cs)@),
        old(cs)@.sound() && old(cs)@.binds_all(bits@) && old(cs)@.binds(zero) && !zero.value
            && unsigned_value(values(bits@)) == 0 ==> final(cs)@.sound(),
{
    let ghost start = cs@;
    let ghost ok = start.sound() && start.binds_all(bits@) && start.binds(zero) && !zero.value
        && unsigned_value(values(bits@)) == 0;
    proof {
        if ok {
            lemma_zero_value(values(bits@));
        }
    }
    let mut i: usize = 0;
    while i < bits.len()
        invariant
            i <= bits.len(),
            cs@.tally() == start.tally().plus(relations_cost(i as nat)),
            cs@.extends(start),
            ok ==> start.binds_all(bits@) && start.binds(zero) && !zero.value && (forall|j: int|
                0 <= j < bits@.len() ==> !(#[trigger] values(bits@)[j])),
            ok ==> cs@.sound(),
        decreases bits.len() - i,
    {
        proof {
            if ok {
                lemma_binds_extends(start, cs@, bits@[i as int]);
                lemma_binds_extends(start, cs@, zero);
                assert(!values(bits@)[i as int]);
            }
        }
        cs.enforce_equal(bits[i], zero, zero);
        i = i + 1;
    }
}

proof fn lemma_signed_product(a: int, b: int, ma: int, mb: int, sa: bool, sb: bool)
    requires
        a == if sa {
            -ma
        } else {
            ma
        },
        b == if sb {
            -mb
        } else {
            mb
        },
    ensures
        a * b == if sa != sb {
            -(ma * mb)
        } else {
            ma * mb
        },
{
    assert((-ma) * mb == -(ma * mb)) by (nonlinear_arith);
    assert(ma * (-mb) == -(ma * mb)) by (nonlinear_arith);
    assert((-ma) * (-mb) == ma * mb) by (nonlinear_arith);
}

pub(crate) proof fn lemma_high_part(low: int, high: int, w: int)
    requires
        0 <= low < w,
        0 <= high,
    ensures
        high == 0 ==> low + w * high == low,
        high > 0 ==> low + w * high >= w,
{
    if high > 0 {
        assert(w * high >= w) by (nonlinear_arith)
            requires
                high >= 1,
                w > 0,
        ;
    } else {
        assert(w * 0 == 0);
    }
}

/// The magnitude of a two's complement number, as wires.
pub(crate) fn magnitude(cs: &mut Circuit, bits: &Vec<Boolean>, zero: Boolean) -> (out: Vec<Boolean>)
    requires
        bits@.len() > 0,
        !zero.value,
    ensures
        out@.len() == bits@.len(),
        unsigned_value(values(out@)) == if values(bits@).last() {
            -value_of(values(bits@), true)
        } else {
            value_of(values(bits@), true)
        },
        unsigned_value(values(out@)) <= weight((bits@.len() - 1) as nat),
        final(cs)@.tally() == old(cs)@.tally().plus(
            conditional_negate_cost(Mode::Private, bits@.len()),
        ),
        final(cs)@.extends(old(cs)@),
        final(cs)@.binds_all(out@),
        old(cs)@.sound() && old(cs)@.binds_all(bits@) && old(cs)@.binds(zero) ==> final(cs)@.sound(),
{
    let n: usize = bits.len();
    let sign = bits[n - 1];
    proof {
        if cs@.binds_all(bits@) {
            assert(cs@.binds(bits@[n - 1]));
        }
    }
    let (out, _carry) = conditional_negate(cs, bits, sign, zero, Mode::Private);
    proof {
        let v = values(bits@);
        assert(v.last() == sign.value);
        lemma_top_bit(v);
        lemma_signed_bound(v);
        lemma_unsigned_bound(v);
        lemma_unsigned_bound(values(out@));
        lemma_weight_positive((n - 1) as nat);
    }
    out
}

/// Whether a magnitude with a sign does not fit the wires that hold the
/// magnitude, read in two's complement: its last wire is set, unless it is
/// the magnitude of the least number and the sign is set.
proof fn lemma_sign_fits(low: Seq<bool>, sign: bool)
    requires
        low.len() >= 2,
    ensures
        ({
            let m = unsigned_value(low) as int;
            let half = weight((low.len() - 1) as nat) as int;
            let signed = if sign {
                -m
            } else {
                m
            };
            (low.last() && !(sign && unsigned_value(low.drop_last()) == 0)) <==> !(-half <= signed
                < half)
        }),
{
    lemma_top_bit(low);
    lemma_unsigned_bound(low);
    lemma_unsigned_bound(low.drop_last());
    lemma_weight_positive((low.len() - 1) as nat);
}

/// The number that the conditional negation of a magnitude stands for.
proof fn lemma_signed_magnitude(low: Seq<bool>, r: Seq<bool>, sign: bool, carry: bool)
    requires
        low.len() >= 2,
        r.len() == low.len(),
        unsigned_value(r) + (if carry {
            weight(low.len())
        } else {
            0
        }) == if sign {
            weight(low.len()) - unsigned_value(low)
        } else {
            unsigned_value(low) as int
        },
        !(low.last() && !(sign && unsigned_value(low.drop_last()) == 0)),
    ensures
        value_of(r, true) == if sign {
            -(unsigned_value(low) as int)
        } else {
            unsigned_value(low) as int
        },
{
    lemma_top_bit(low);
    lemma_unsigned_bound(low);
    lemma_unsigned_bound(low.drop_last());
    lemma_top_bit(r);
    lemma_unsigned_bound(r);
    lemma_signed_bound(r);
    lemma_weight_positive((low.len() - 1) as nat);
}

/// Enforces that a magnitude with a sign fits the wires that hold the
/// magnitude: its last wire is clear, or the sign is set and every other
/// wire is clear.
#[verifier::rlimit(40)]
fn sign_check(cs: &mut Circuit, low: &Vec<Boolean>, sign: Boolean, zero: Boolean)
    requires
        low@.len() >= 2,
        !zero.value,
        !(values(low@).last() && !(sign.value && unsigned_value(values(low@).drop_last()) == 0)),
    ensures
        final(cs)@.tally() == old(cs)@.tally().plus(
            gates_cost((low@.len() - 2) as nat).plus(gate_cost(Mode::Private)).plus(
                relations_cost(1),
            ),
        ),
        final(cs)@.extends(old(cs)@),
        old(cs)@.sound() && old(cs)@.binds_all(low@) && old(cs)@.binds(sign) && old(cs)@.binds(zero) ==> final(cs)@.sound(),
{
    let n: usize = low.len();
    let ghost start = cs@;
    let top = low[n - 1];
    proof {
        assert(values(low@).take((n - 1) as int) =~= values(low@).drop_last());
        assert(values(low@).last() == top.value);
    }
    let chain = clear_chain(cs, low, n - 1);
    let ghost first = cs@;
    proof {
        lemma_keep(start, first, low@, low@, low@, sign, zero);
    }
    let excused = cs.and(sign, chain, Mode::Private);
    let ghost second = cs@;
    proof {
        lemma_keep(first, second, low@, low@, low@, sign, zero);
        if second.binds_all(low@) {
            assert(second.binds(low@[n - 1]));
        }
        lemma_binds_not(second, excused);
    }
    cs.enforce(
        Constraint::Product {
            a: top.variable(),
            b: excused.not().variable(),
            out: zero.variable(),
        },
    );
}

/// Gives a magnitude of `n` wires its sign and checks that the signed result
/// fits `n` wires.
#[verifier::rlimit(40)]
pub(crate) fn with_sign(
    cs: &mut Circuit,
    low: &Vec<Boolean>,
    sign: Boolean,
    zero: Boolean,
    mode: Mode,
) -> (out: Option<Vec<Boolean>>)
    requires
        low@.len() >= 2,
        !zero.value,
    ensures
        ({
            let m = unsigned_value(values(low@)) as int;
            let half = weight((low@.len() - 1) as nat) as int;
            let signed = if sign.value {
                -m
            } else {
                m
            };
            &&& out is Some <==> -half <= signed < half
            &&& out matches Some(r) ==> {
                &&& r@.len() == low@.len()
                &&& value_of(values(r@), true) == signed
                &&& forall|i: int|
                    0 <= i < r@.len() ==> (#[trigger] r@[i]).mode == mode && !r@[i].inverted
                &&& final(cs)@.tally() == old(cs)@.tally().plus(with_sign_cost(mode, low@.len()))
                &&& final(cs)@.extends(old(cs)@)
                &&& final(cs)@.binds_all(r@)
                &&& old(cs)@.sound() && old(cs)@.binds_all(low@) && old(cs)@.binds(sign)
                    && old(cs)@.binds(zero) ==> final(cs)@.sound()
            }
        }),
{
    let n: usize = low.len();
    let ghost start = cs@;
    let rest_clear = all_clear(low, n - 1);
    let top = low[n - 1];
    proof {
        let v = values(low@);
        assert(v.take((n - 1) as int) =~= v.drop_last());
        assert(v.last() == top.value);
        lemma_sign_fits(v, sign.value);
    }
    if top.value && !(sign.value && rest_clear) {
        return None;
    }
    sign_check(cs, low, sign, zero);
    let ghost middle = cs@;
    proof {
        lemma_keep(start, middle, low@, low@, low@, sign, zero);
    }
    let (result, carry) = conditional_negate(cs, low, sign, zero, mode);
    proof {
        lemma_signed_magnitude(values(low@), values(result@), sign.value, carry.value);
        lemma_extends_twice(start, middle, cs@);
    }
    Some(result)
}

/// Extending a circuit twice extends it.
pub(crate) proof fn lemma_extends_twice(first: CircuitView, second: CircuitView, third: CircuitView)
    requires
        second.extends(first),
        third.extends(second),
    ensures
        third.extends(first),
{
}

proof fn lemma_signed_fit(
    a: int,
    b: int,
    ma: int,
    mb: int,
    low: int,
    high: int,
    w: int,
    sa: bool,
    sb: bool,
)
    requires
        a == if sa {
            -ma
        } else {
            ma
        },
        b == if sb {
            -mb
        } else {
            mb
        },
        low + w * high == ma * mb,
        0 <= low < w,
        0 <= high,
    ensures
        high > 0 ==> a * b >= w || a * b <= -w,
        high == 0 ==> a * b == if sa != sb {
            -low
        } else {
            low
        },
{
    lemma_signed_product(a, b, ma, mb, sa, sb);
    lemma_high_part(low, high, w);
}

/// The product of the magnitudes of two two's complement numbers, as its
/// lower and its upper half, and the sign of the product of the numbers.
#[verifier::rlimit(40)]
fn signed_wide(cs: &mut Circuit, a: &Vec<Boolean>, b: &Vec<Boolean>, zero: Boolean) -> (out: (
    Vec<Boolean>,
    Vec<Boolean>,
    Boolean,
))
    requires
        a@.len() == b@.len(),
        a@.len() >= 2,
        !zero.value,
    ensures
        out.0@.len() == a@.len(),
        out.1@.len() == a@.len(),
        ({
            let product = value_of(values(a@), true) * value_of(values(b@), true);
            let low = unsigned_value(values(out.0@)) as int;
            let high = unsigned_value(values(out.1@));
            let w = weight(a@.len()) as int;
            &&& high > 0 ==> product >= w || product <= -w
            &&& high == 0 ==> product == if out.2.value {
                -low
            } else {
                low
            }
        }),
        final(cs)@.tally() == old(cs)@.tally().plus(
            conditional_negate_cost(Mode::Private, a@.len()),
        ).plus(conditional_negate_cost(Mode::Private, a@.len())).plus(
            wide_cost(Mode::Private, a@.len()),
        ).plus(full_adder_cost(Mode::Private)),
        final(cs)@.extends(old(cs)@),
        final(cs)@.binds_all(out.0@),
        final(cs)@.binds(out.2),
        old(cs)@.binds_all(a@) && old(cs)@.binds_all(b@) && old(cs)@.binds(zero) ==> final(cs)@.binds_all(out.1@) && final(cs)@.binds(zero) && (old(cs)@.sound() ==> final(cs)@.sound()),
{
    let n: usize = a.len();
    let ghost s1 = cs@;
    let first = magnitude(cs, a, zero);
    let ghost s2 = cs@;
    proof {
        lemma_keep(s1, s2, a@, b@, a@, zero, zero);
    }
    let second = magnitude(cs, b, zero);
    let ghost s3 = cs@;
    proof {
        lemma_keep(s2, s3, a@, b@, first@, zero, zero);
    }
    let (low, high) = multiply_wide(cs, &first, &second, zero, Mode::Private);
    let ghost s4 = cs@;
    proof {
        lemma_keep(s3, s4, a@, b@, a@, zero, zero);
        if s4.binds_all(a@) && s4.binds_all(b@) {
            assert(s4.binds(a@[n - 1]));
            assert(s4.binds(b@[n - 1]));
        }
    }
    let (sign, _carry) = cs.full_adder(a[n - 1], b[n - 1], zero, Mode::Private);
    proof {
        lemma_keep(s4, cs@, low@, high@, low@, zero, zero);
        let va = values(a@);
        let vb = values(b@);
        assert(va.last() == a@[n - 1].value);
        assert(vb.last() == b@[n - 1].value);
        lemma_unsigned_bound(values(low@));
        lemma_signed_fit(
            value_of(va, true),
            value_of(vb, true),
            unsigned_value(values(first@)) as int,
            unsigned_value(values(second@)) as int,
            unsigned_value(values(low@)) as int,
            unsigned_value(values(high@)) as int,
            weight(n as nat) as int,
            va.last(),
            vb.last(),
        );
        assert(sign.value == (va.last() != vb.last()));
    }
    (low, high, sign)
}

/// Multiplies two sequences of wires as two's complement integers of type
/// `ty`.
#[verifier::rlimit(40)]
fn multiply_signed_wires(
    cs: &mut Circuit,
    ty: IntegerType,
    a: &Vec<Boolean>,
    b: &Vec<Boolean>,
    mode: Mode,
) -> (out: Option<Vec<Boolean>>)
    requires
        ty.spec_is_signed(),
        a@.len() == ty.spec_width(),
        b@.len() == ty.spec_width(),
    ensures
        out is Some <==> ty.contains(value_of(values(a@), true) * value_of(values(b@), true)),
        out matches Some(r) ==> {
            &&& r@.len() == ty.spec_width()
            &&& value_of(values(r@), true) == value_of(values(a@), true) * value_of(
                values(b@),
                true,
            )
            &&& forall|i: int|
                0 <= i < r@.len() ==> (#[trigger] r@[i]).mode == mode && !r@[i].inverted
            &&& final(cs)@.tally() == old(cs)@.tally().plus(multiply_wires_cost(ty, mode))
            &&& final(cs)@.extends(old(cs)@)
            &&& final(cs)@.binds_all(r@)
            &&& old(cs)@.sound() && old(cs)@.binds_all(a@) && old(cs)@.binds_all(b@) ==> final(cs)@.sound()
        },
{
    let n: usize = ty.width();
    let ghost start = cs@;
    let zero = cs.allocate(Mode::Constant, false);
    proof {
        lemma_keep(start, cs@, a@, b@, a@, zero, zero);
    }
    let (low, high, sign) = signed_wide(cs, a, b, zero);
    let ghost middle = cs@;
    let high_clear = all_clear(&high, n);
    proof {
        assert(values(high@).take(n as int) =~= values(high@));
        lemma_weight_positive((n - 1) as nat);
        assert(weight(n as nat) == 2 * weight((n - 1) as nat));
    }
    if !high_clear {
        return None;
    }
    enforce_clear(cs, &high, zero);
    proof {
        lemma_keep(middle, cs@, low@, low@, low@, sign, zero);
    }
    with_sign(cs, &low, sign, zero, mode)
}

/// Multiplies two sequences of wires as unsigned integers of type `ty`.
#[verifier::rlimit(40)]
fn multiply_unsigned_wires(
    cs: &mut Circuit,
    ty: IntegerType,
    a: &Vec<Boolean>,
    b: &Vec<Boolean>,
    mode: Mode,
) -> (out: Option<Vec<Boolean>>)
    requires
        !ty.spec_is_signed(),
        a@.len() == ty.spec_width(),
        b@.len() == ty.spec_width(),
    ensures
        out is Some <==> ty.contains((unsigned_value(values(a@)) * unsigned_value(values(b@))) as int),
        out matches Some(r) ==> {
            &&& r@.len() == ty.spec_width()
            &&& unsigned_value(values(r@)) == unsigned_value(values(a@)) * unsigned_value(
                values(b@),
            )
            &&& forall|i: int|
                0 <= i < r@.len() ==> (#[trigger] r@[i]).mode == mode && !r@[i].inverted
            &&& final(cs)@.tally() == old(cs)@.tally().plus(multiply_wires_cost(ty, mode))
            &&& final(cs)@.extends(old(cs)@)
            &&& final(cs)@.binds_all(r@)
            &&& old(cs)@.sound() && old(cs)@.binds_all(a@) && old(cs)@.binds_all(b@) ==> final(cs)@.sound()
        },
{
    let n: usize = ty.width();
    let ghost start = cs@;
    let zero = cs.allocate(Mode::Constant, false);
    let ghost s1 = cs@;
    proof {
        lemma_keep(start, s1, a@, b@, a@, zero, zero);
    }
    let (low, high) = multiply_wide(cs, a, b, zero, mode);
    let ghost s2 = cs@;
    proof {
        lemma_keep(s1, s2, a@, b@, a@, zero, zero);
    }
    let high_clear = all_clear(&high, n);
    proof {
        assert(values(high@).take(n as int) =~= values(high@));
        lemma_unsigned_bound(values(low@));
        lemma_high_part(
            unsigned_value(values(low@)) as int,
            unsigned_value(values(high@)) as int,
            weight(n as nat) as int,
        );
    }
    if !high_clear {
        return None;
    }
    enforce_clear(cs, &high, zero);
    proof {
        lemma_keep(s2, cs@, low@, low@, low@, zero, zero);
    }
    Some(low)
}

/// Multiplies two sequences of wires as integers of type `ty` on the
/// constrained path. Returns the wires of the product, allocated in `mode`,
/// or nothing where the type cannot hold the product.
pub(crate) fn multiply_wires(
    cs: &mut Circuit,
    ty: IntegerType,
    a: &Vec<Boolean>,
    b: &Vec<Boolean>,
    mode: Mode,
) -> (out: Option<Vec<Boolean>>)
    requires
        a@.len() == ty.spec_width(),
        b@.len() == ty.spec_width(),
    ensures
        ({
            let product = value_of(values(a@), ty.spec_is_signed()) * value_of(
                values(b@),
                ty.spec_is_signed(),
            );
            &&& out is Some <==> ty.contains(product)
            &&& out matches Some(r) ==> {
                &&& r@.len() == ty.spec_width()
                &&& value_of(values(r@), ty.spec_is_signed()) == product
                &&& forall|i: int|
                    0 <= i < r@.len() ==> (#[trigger] r@[i]).mode == mode && !r@[i].inverted
                &&& final(cs)@.tally() == old(cs)@.tally().plus(multiply_wires_cost(ty, mode))
                &&& final(cs)@.extends(old(cs)@)
                &&& final(cs)@.binds_all(r@)
                &&& old(cs)@.sound() && old(cs)@.binds_all(a@) && old(cs)@.binds_all(b@)
                    ==> final(cs)@.sound()
            }
        }),
{
    if ty.is_signed() {
        multiply_signed_wires(cs, ty, a, b, mode)
    } else {
        multiply_unsigned_wires(cs, ty, a, b, mode)
    }
}

/// The native product, where the type can hold it.
pub(crate) fn native_multiply(ty: IntegerType, x: Native, y: Native) -> (out: Option<Native>)
    requires
        x.spec_fits(ty),
        y.spec_fits(ty),
    ensures
        out is Some <==> ty.contains(x.as_int() * y.as_int()),
        out matches Some(r) ==> r.spec_fits(ty) && r.as_int() == x.as_int() * y.as_int(),
{
    proof {
        lemma_weight_values();
    }
    match (x, y) {
        (Native::Signed(v), Native::Signed(w)) => match v.checked_mul(w) {
            Some(p) => if Native::Signed(p).fits(ty) {
                Some(Native::Signed(p))
            } else {
                None
            },
            None => None,
        },
        (Native::Unsigned(v), Native::Unsigned(w)) => match v.checked_mul(w) {
            Some(p) => if Native::Unsigned(p).fits(ty) {
                Some(Native::Unsigned(p))
            } else {
                None
            },
            None => None,
        },
        _ => None,
    }
}

impl Integer {
    /// The product of two integers of one type.
    ///
    /// Halts when the types differ, and when the type cannot hold the
    /// product.
    pub fn multiply(&self, cs: &mut Circuit, other: &Integer) -> (out: Result<Integer, Halt>)
        ensures
            out is Ok <==> self@.ty == other@.ty && self@.ty.contains(
                self@.value() * other@.value(),
            ),
            out matches Ok(r) ==> {
                &&& r@.wf()
                &&& r@.ty == self@.ty
                &&& r@.value() == self@.value() * other@.value()
                &&& r@.mode() == self@.mode().spec_join(other@.mode())
                &&& final(cs)@.tally() == old(cs)@.tally().plus(
                    multiply_cost(self@.ty, self@.mode(), other@.mode()),
                )
                &&& final(cs)@.extends(old(cs)@)
                &&& final(cs)@.binds_all(r@.wires)
                &&& old(cs)@.sound() && old(cs)@.binds_all(self@.wires) && old(cs)@.binds_all(other@.wires) ==> final(cs)@.sound()
            },
            out matches Err(halt) ==> halt == if self@.ty == other@.ty {
                Halt::Overflow { opcode: Opcode::Mul, ty: self@.ty }
            } else {
                Halt::InvalidInstruction { opcode: Opcode::Mul }
            },
    {
        let ty = self.ty();
        if ty != other.ty() {
            return Err(Halt::InvalidInstruction { opcode: Opcode::Mul });
        }
        let mode = self.mode().join(other.mode());
        proof {
            lemma_constant_mode(self@);
            lemma_constant_mode(other@);
        }
        match (self.cached(), other.cached()) {
            (Some(x), Some(y)) => {
                match native_multiply(ty, x, y) {
                    Some(r) => {
                        let out = Integer::constant(cs, ty, r);
                        Ok(out.unwrap())
                    },
                    None => Err(Halt::Overflow { opcode: Opcode::Mul, ty }),
                }
            },
            _ => {
                match multiply_wires(cs, ty, self.bits(), other.bits(), mode) {
                    Some(wires) => {
                        let out = Integer::from_bits_le(ty, &wires);
                        proof {
                            lemma_uniform_mode(IntegerView { ty, wires: wires@ }, mode);
                        }
                        Ok(out.unwrap())
                    },
                    None => Err(Halt::Overflow { opcode: Opcode::Mul, ty }),
                }
            },
        }
    }
}

} // verus!
