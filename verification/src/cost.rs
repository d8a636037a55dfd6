//! The cost model: what every operation takes, by opcode and operand types.
//!
//! The costs are sums of the costs of the gadgets that an operation is made
//! of, so they state what the gadgets do by construction. They depend on the
//! kinds and modes of the operands and never on their values.

use crate::arithmetic::{add_cost, negate_cost, ripple_cost, subtract_cost};
use crate::circuit::{full_adder_cost, gate_cost, lemma_times, CircuitCount, Tally};
use crate::divide::{divide_cost, divide_wires_cost, long_division_cost};
use crate::halt::{Halt, Opcode};
use crate::integer::{wires_cost, IntegerType};
use crate::mode::Mode;
use crate::multiply::{
    adders_cost, conditional_negate_cost, gates_cost, multiply_cost, multiply_wires_cost,
    relations_cost, wide_cost, with_sign_cost,
};
use crate::power::{power_cost, power_wires_cost};
use vstd::prelude::*;

verus! {

/// The kind of a literal.
#[derive(Clone, Copy, Debug, PartialEq, Eq, Structural)]
pub enum LiteralKind {
    Boolean,
    Field,
    Group,
    Integer(IntegerType),
    Scalar,
    Address,
    String,
}

/// The kind of a literal together with its mode: what costs and output modes
/// are keyed by.
#[derive(Clone, Copy, Debug, PartialEq, Eq, Structural)]
pub struct LiteralType {
    pub kind: LiteralKind,
    pub mode: Mode,
}

/// What an operation on integers of one type takes, by the modes of its
/// operands; `None` where the opcode is not defined on the type. A unary
/// operation goes by the first mode alone.
pub open spec fn integer_cost(opcode: Opcode, ty: IntegerType, first: Mode, second: Mode) -> Option<
    Tally,
> {
    match opcode {
        Opcode::Neg => if ty.spec_is_signed() {
            Some(negate_cost(ty, first))
        } else {
            None
        },
        Opcode::Add => Some(add_cost(ty, first, second)),
        Opcode::Sub => if ty.spec_is_signed() {
            Some(subtract_cost(ty, first, second))
        } else {
            None
        },
        Opcode::Mul => Some(multiply_cost(ty, first, second)),
        Opcode::Div => Some(divide_cost(ty, first, second)),
        Opcode::Pow => Some(power_cost(ty, first, second)),
    }
}

/// What an operation takes, by the types of its operands; `None` where the
/// opcode is not defined on them. Field and group arithmetic is linear and
/// takes nothing.
pub open spec fn cost(opcode: Opcode, operands: Seq<LiteralType>) -> Option<Tally> {
    if operands.len() != opcode.spec_arity() {
        None
    } else if opcode == Opcode::Neg {
        match operands[0].kind {
            LiteralKind::Field | LiteralKind::Group => Some(Tally::zero()),
            LiteralKind::Integer(ty) => integer_cost(opcode, ty, operands[0].mode, operands[0].mode),
            _ => None,
        }
    } else if operands[0].kind != operands[1].kind {
        None
    } else {
        match operands[0].kind {
            LiteralKind::Field => if opcode == Opcode::Add || opcode == Opcode::Sub {
                Some(Tally::zero())
            } else {
                None
            },
            LiteralKind::Integer(ty) => integer_cost(opcode, ty, operands[0].mode, operands[1].mode),
            _ => None,
        }
    }
}

/// The type of what an operation returns, by the types of its operands:
/// the kind of the operands, in the join of their modes. `None` where the
/// opcode is not defined on them.
pub open spec fn output(opcode: Opcode, operands: Seq<LiteralType>) -> Option<LiteralType> {
    if cost(opcode, operands) is None {
        None
    } else if opcode == Opcode::Neg {
        Some(operands[0])
    } else {
        Some(
            LiteralType {
                kind: operands[0].kind,
                mode: operands[0].mode.spec_join(operands[1].mode),
            },
        )
    }
}


/// Whether every count is at most `bound`.
pub open spec fn within(count: CircuitCount, bound: u64) -> bool {
    &&& count.constants <= bound
    &&& count.public_variables <= bound
    &&& count.private_variables <= bound
    &&& count.constraints <= bound
}

fn width_of(ty: IntegerType) -> (n: u64)
    ensures
        n == ty.spec_width(),
        8 <= n <= 128,
{
    ty.width() as u64
}

fn wires_count(mode: Mode, n: u64) -> (count: CircuitCount)
    requires
        n <= 129,
    ensures
        count@ == wires_cost(mode, n as nat),
        within(count, 129),
{
    match mode {
        Mode::Constant => CircuitCount {
            constants: n,
            public_variables: 0,
            private_variables: 0,
            constraints: 0,
        },
        Mode::Public => CircuitCount {
            constants: 0,
            public_variables: n,
            private_variables: 0,
            constraints: n,
        },
        Mode::Private => CircuitCount {
            constants: 0,
            public_variables: 0,
            private_variables: n,
            constraints: n,
        },
    }
}

fn ripple_count(mode: Mode, n: u64) -> (count: CircuitCount)
    requires
        n <= 129,
    ensures
        count@ == ripple_cost(mode, n as nat),
        within(count, 387),
{
    match mode {
        Mode::Constant => CircuitCount {
            constants: n,
            public_variables: 0,
            private_variables: n,
            constraints: 2 * n,
        },
        Mode::Public => CircuitCount {
            constants: 0,
            public_variables: n,
            private_variables: n,
            constraints: 3 * n,
        },
        Mode::Private => CircuitCount {
            constants: 0,
            public_variables: 0,
            private_variables: 2 * n,
            constraints: 3 * n,
        },
    }
}

fn gates_count(n: u64) -> (count: CircuitCount)
    requires
        n <= 129,
    ensures
        count@ == gates_cost(n as nat),
        within(count, 258),
{
    CircuitCount { constants: 0, public_variables: 0, private_variables: n, constraints: 2 * n }
}

fn adders_count(n: u64) -> (count: CircuitCount)
    requires
        n <= 129,
    ensures
        count@ == adders_cost(n as nat),
        within(count, 387),
{
    CircuitCount {
        constants: 0,
        public_variables: 0,
        private_variables: 2 * n,
        constraints: 3 * n,
    }
}

fn relations_count(n: u64) -> (count: CircuitCount)
    requires
        n <= 129,
    ensures
        count@ == relations_cost(n as nat),
        within(count, 129),
{
    CircuitCount { constants: 0, public_variables: 0, private_variables: 0, constraints: n }
}

fn constants_count(n: u64) -> (count: CircuitCount)
    requires
        n <= 129,
    ensures
        count@ == (Tally {
            constants: n as nat,
            public_variables: 0,
            private_variables: 0,
            constraints: 0,
        }),
        within(count, 129),
{
    CircuitCount { constants: n, public_variables: 0, private_variables: 0, constraints: 0 }
}

fn gate_count(mode: Mode) -> (count: CircuitCount)
    ensures
        count@ == gate_cost(mode),
        within(count, 2),
{
    wires_count(mode, 1).plus(relations_count(1))
}

fn full_adder_count(mode: Mode) -> (count: CircuitCount)
    ensures
        count@ == full_adder_cost(mode),
        within(count, 3),
{
    wires_count(mode, 1).plus(wires_count(Mode::Private, 1)).plus(relations_count(1))
}

/// The sum of `k` copies of a count.
fn scale(count: CircuitCount, k: u64) -> (out: CircuitCount)
    requires
        within(count, 0x1_0000_0000),
        k <= 128,
    ensures
        out@ == count@.times(k as nat),
        out.constants <= count.constants * 128,
        out.public_variables <= count.public_variables * 128,
        out.private_variables <= count.private_variables * 128,
        out.constraints <= count.constraints * 128,
{
    proof {
        lemma_times(count@, k as nat);
        lemma_scaled(count.constants, k);
        lemma_scaled(count.public_variables, k);
        lemma_scaled(count.private_variables, k);
        lemma_scaled(count.constraints, k);
    }
    CircuitCount {
        constants: k * count.constants,
        public_variables: k * count.public_variables,
        private_variables: k * count.private_variables,
        constraints: k * count.constraints,
    }
}

proof fn lemma_scaled(x: u64, k: u64)
    requires
        x <= 0x1_0000_0000,
        k <= 128,
    ensures
        k * x <= x * 128,
        k * x <= 0x80_0000_0000,
{
    assert(k * x <= x * 128) by (nonlinear_arith)
        requires
            k <= 128,
            0 <= x,
    ;
}

fn negate_count(ty: IntegerType, mode: Mode) -> (count: CircuitCount)
    ensures
        count@ == negate_cost(ty, mode),
        within(count, 1000),
{
    let n: u64 = width_of(ty);
    if mode.is_constant() {
        wires_count(Mode::Constant, n)
    } else {
        constants_count(2).plus(relations_count(1)).plus(ripple_count(mode, n))
    }
}

fn add_count(ty: IntegerType, first: Mode, second: Mode) -> (count: CircuitCount)
    ensures
        count@ == add_cost(ty, first, second),
        within(count, 1000),
{
    let n: u64 = width_of(ty);
    let mode = first.join(second);
    if mode.is_constant() {
        wires_count(Mode::Constant, n)
    } else {
        constants_count(1).plus(relations_count(1)).plus(ripple_count(mode, n))
    }
}

fn conditional_negate_count(mode: Mode, n: u64) -> (count: CircuitCount)
    requires
        n <= 128,
    ensures
        count@ == conditional_negate_cost(mode, n as nat),
        within(count, 774),
{
    adders_count(n).plus(ripple_count(mode, n))
}

fn with_sign_count(mode: Mode, n: u64) -> (count: CircuitCount)
    requires
        8 <= n <= 128,
    ensures
        count@ == with_sign_cost(mode, n as nat),
        within(count, 1100),
{
    gates_count(n - 2).plus(gate_count(Mode::Private)).plus(relations_count(1)).plus(
        conditional_negate_count(mode, n),
    )
}

fn wide_count(mode: Mode, n: u64) -> (count: CircuitCount)
    requires
        n <= 128,
    ensures
        count@ == wide_cost(mode, n as nat),
        within(count, 82560),
{
    scale(gates_count(n).plus(ripple_count(mode, n)), n)
}

fn multiply_wires_count(ty: IntegerType, mode: Mode) -> (count: CircuitCount)
    ensures
        count@ == multiply_wires_cost(ty, mode),
        within(count, 90000),
{
    let n: u64 = width_of(ty);
    if ty.is_signed() {
        constants_count(1).plus(conditional_negate_count(Mode::Private, n)).plus(
            conditional_negate_count(Mode::Private, n),
        ).plus(wide_count(Mode::Private, n)).plus(full_adder_count(Mode::Private)).plus(
            relations_count(n),
        ).plus(with_sign_count(mode, n))
    } else {
        constants_count(1).plus(wide_count(mode, n)).plus(relations_count(n))
    }
}

fn long_division_count(n: u64) -> (count: CircuitCount)
    requires
        n <= 128,
    ensures
        count@ == long_division_cost(n as nat),
        within(count, 82560),
{
    scale(ripple_count(Mode::Private, n + 1).plus(gates_count(n)), n)
}

fn divide_wires_count(ty: IntegerType, mode: Mode) -> (count: CircuitCount)
    ensures
        count@ == divide_wires_cost(ty, mode),
        within(count, 90000),
{
    let n: u64 = width_of(ty);
    let check = constants_count(2).plus(gates_count(n - 1)).plus(relations_count(1));
    if ty.is_signed() {
        check.plus(conditional_negate_count(Mode::Private, n)).plus(
            conditional_negate_count(Mode::Private, n),
        ).plus(long_division_count(n)).plus(full_adder_count(Mode::Private)).plus(
            with_sign_count(mode, n),
        )
    } else {
        check.plus(long_division_count(n)).plus(ripple_count(mode, n))
    }
}

fn power_wires_count(ty: IntegerType, mode: Mode) -> (count: CircuitCount)
    ensures
        count@ == power_wires_cost(ty, mode),
        within(count, 24000000),
{
    let n: u64 = width_of(ty);
    let step = multiply_wires_count(ty, mode).plus(gates_count(n)).plus(
        multiply_wires_count(ty, mode),
    );
    if ty.is_signed() {
        wires_count(Mode::Constant, n).plus(constants_count(1).plus(relations_count(1))).plus(
            scale(step, n - 1),
        )
    } else {
        wires_count(Mode::Constant, n).plus(CircuitCount::zero()).plus(scale(step, n))
    }
}

fn integer_count(opcode: Opcode, ty: IntegerType, first: Mode, second: Mode) -> (out: Option<
    CircuitCount,
>)
    ensures
        out is Some <==> integer_cost(opcode, ty, first, second) is Some,
        out matches Some(count) ==> integer_cost(opcode, ty, first, second) == Some(count@),
{
    let n: u64 = width_of(ty);
    let mode = first.join(second);
    match opcode {
        Opcode::Neg => if ty.is_signed() {
            Some(negate_count(ty, first))
        } else {
            None
        },
        Opcode::Add => Some(add_count(ty, first, second)),
        Opcode::Sub => if ty.is_signed() {
            Some(negate_count(ty, second).plus(add_count(ty, first, second)))
        } else {
            None
        },
        Opcode::Mul => if mode.is_constant() {
            Some(wires_count(Mode::Constant, n))
        } else {
            Some(multiply_wires_count(ty, mode))
        },
        Opcode::Div => if mode.is_constant() {
            Some(wires_count(Mode::Constant, n))
        } else {
            Some(divide_wires_count(ty, mode))
        },
        Opcode::Pow => if mode.is_constant() {
            Some(wires_count(Mode::Constant, n))
        } else {
            Some(power_wires_count(ty, mode))
        },
    }
}

/// Looks up what an operation takes, by the types of its operands, without
/// running it. Halts with an invalid instruction exactly where the opcode is
/// not defined on operands of these types.
pub fn count(opcode: Opcode, operands: &Vec<LiteralType>) -> (out: Result<CircuitCount, Halt>)
    ensures
        out is Ok <==> cost(opcode, operands@) is Some,
        out matches Ok(count) ==> cost(opcode, operands@) == Some(count@),
        out matches Err(halt) ==> halt == (Halt::InvalidInstruction { opcode }),
{
    if operands.len() != opcode.arity() {
        return Err(Halt::InvalidInstruction { opcode });
    }
    let first = operands[0];
    let found = if opcode == Opcode::Neg {
        match first.kind {
            LiteralKind::Field | LiteralKind::Group => Some(CircuitCount::zero()),
            LiteralKind::Integer(ty) => integer_count(opcode, ty, first.mode, first.mode),
            _ => None,
        }
    } else {
        let second = operands[1];
        if first.kind != second.kind {
            None
        } else {
            match first.kind {
                LiteralKind::Field => if opcode == Opcode::Add || opcode == Opcode::Sub {
                    Some(CircuitCount::zero())
                } else {
                    None
                },
                LiteralKind::Integer(ty) => integer_count(opcode, ty, first.mode, second.mode),
                _ => None,
            }
        }
    };
    match found {
        Some(count) => Ok(count),
        None => Err(Halt::InvalidInstruction { opcode }),
    }
}

/// Looks up the type of what an operation returns, by the types of its
/// operands, without running it. Halts with an invalid instruction exactly
/// where the opcode is not defined on operands of these types.
pub fn output_type(opcode: Opcode, operands: &Vec<LiteralType>) -> (out: Result<LiteralType, Halt>)
    ensures
        out is Ok <==> output(opcode, operands@) is Some,
        out matches Ok(ty) ==> output(opcode, operands@) == Some(ty),
        out matches Err(halt) ==> halt == (Halt::InvalidInstruction { opcode }),
{
    match count(opcode, operands) {
        Ok(_) => {
            if opcode == Opcode::Neg {
                Ok(operands[0])
            } else {
                Ok(
                    LiteralType {
                        kind: operands[0].kind,
                        mode: operands[0].mode.join(operands[1].mode),
                    },
                )
            }
        },
        Err(halt) => Err(halt),
    }
}

/// The mode of what an operation returns, by the modes of its operands:
/// their join, whatever the opcode.
pub fn output_mode(opcode: Opcode, modes: &Vec<Mode>) -> (mode: Mode)
    ensures
        mode == crate::mode::join_all(modes@),
{
    crate::mode::join_modes(modes)
}

/// The mode of what an operation returns is the join of the modes of its
/// operands, and its kind is the kind of the first.
pub proof fn lemma_output_mode(opcode: Opcode, operands: Seq<LiteralType>)
    requires
        output(opcode, operands) is Some,
    ensures
        operands.len() == opcode.spec_arity(),
        output(opcode, operands)->Some_0.kind == operands[0].kind,
        output(opcode, operands)->Some_0.mode == crate::mode::join_all(
            Seq::new(operands.len(), |i: int| operands[i].mode),
        ),
{
    let modes = Seq::new(operands.len(), |i: int| operands[i].mode);
    reveal_with_fuel(crate::mode::join_all, 3);
    if opcode == Opcode::Neg {
        assert(modes.drop_last() =~= Seq::<Mode>::empty());
    } else {
        assert(modes.drop_last().drop_last() =~= Seq::<Mode>::empty());
        assert(modes.drop_last().last() == operands[0].mode);
    }
}

/// An operation on constants takes no witness and no relation.
pub proof fn lemma_constant_cost(opcode: Opcode, operands: Seq<LiteralType>)
    requires
        cost(opcode, operands) is Some,
        forall|i: int| 0 <= i < operands.len() ==> operands[i].mode == Mode::Constant,
    ensures
        cost(opcode, operands)->Some_0.public_variables == 0,
        cost(opcode, operands)->Some_0.private_variables == 0,
        cost(opcode, operands)->Some_0.constraints == 0,
{
}

} // verus!
