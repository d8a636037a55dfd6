//! Literals: the closed union of the kinds of value that a register holds.

use crate::circuit::{
    lemma_binds_all_extends, lemma_binds_extends, Boolean, Circuit, CircuitView,
};
use crate::cost::{cost, LiteralKind, LiteralType};
use crate::divide::quotient;
use crate::field::{inverse, sum, AddressValue, Field, Group, Scalar};
use crate::halt::{Halt, Opcode};
use crate::integer::{Integer, IntegerView};
use crate::mode::Mode;
use crate::power::power;
use vstd::prelude::*;

verus! {

/// A value of one of the kinds. An integer or a boolean has the mode of its
/// wires; every other kind carries its mode beside the value.
#[derive(Debug, PartialEq, Eq)]
pub enum Literal {
    Boolean(Boolean),
    Field(Field, Mode),
    Group(Group, Mode),
    Integer(Integer),
    Scalar(Scalar, Mode),
    Address(AddressValue, Mode),
    String(Vec<u8>, Mode),
}

/// The mathematical content of a [`Literal`].
pub enum LiteralView {
    Boolean(Boolean),
    Field(int, Mode),
    Group(int, Mode),
    Integer(IntegerView),
    Scalar(Scalar, Mode),
    Address(AddressValue, Mode),
    String(Seq<u8>, Mode),
}

impl View for Literal {
    type V = LiteralView;

    open spec fn view(&self) -> LiteralView {
        match self {
            Literal::Boolean(b) => LiteralView::Boolean(*b),
            Literal::Field(x, mode) => LiteralView::Field(x@, *mode),
            Literal::Group(p, mode) => LiteralView::Group(p.x@, *mode),
            Literal::Integer(x) => LiteralView::Integer(x@),
            Literal::Scalar(s, mode) => LiteralView::Scalar(*s, *mode),
            Literal::Address(a, mode) => LiteralView::Address(*a, *mode),
            Literal::String(s, mode) => LiteralView::String(s@, *mode),
        }
    }
}

impl LiteralView {
    pub open spec fn kind(self) -> LiteralKind {
        match self {
            LiteralView::Boolean(_) => LiteralKind::Boolean,
            LiteralView::Field(_, _) => LiteralKind::Field,
            LiteralView::Group(_, _) => LiteralKind::Group,
            LiteralView::Integer(x) => LiteralKind::Integer(x.ty),
            LiteralView::Scalar(_, _) => LiteralKind::Scalar,
            LiteralView::Address(_, _) => LiteralKind::Address,
            LiteralView::String(_, _) => LiteralKind::String,
        }
    }

    /// The mode of the literal: the join of the modes of the wires inside it,
    /// or the mode that it carries.
    pub open spec fn mode(self) -> Mode {
        match self {
            LiteralView::Boolean(b) => b.mode,
            LiteralView::Field(_, mode) => mode,
            LiteralView::Group(_, mode) => mode,
            LiteralView::Integer(x) => x.mode(),
            LiteralView::Scalar(_, mode) => mode,
            LiteralView::Address(_, mode) => mode,
            LiteralView::String(_, mode) => mode,
        }
    }

    pub open spec fn type_of(self) -> LiteralType {
        LiteralType { kind: self.kind(), mode: self.mode() }
    }

    /// Whether the circuit binds every wire of the literal. Only booleans
    /// and integers have wires.
    pub open spec fn bound_in(self, cs: CircuitView) -> bool {
        match self {
            LiteralView::Boolean(b) => cs.binds(b),
            LiteralView::Integer(x) => cs.binds_all(x.wires),
            _ => true,
        }
    }

    /// Whether the negation of the literal is defined and representable.
    pub open spec fn negation_defined(self) -> bool {
        match self {
            LiteralView::Field(_, _) => true,
            LiteralView::Group(_, _) => true,
            LiteralView::Integer(x) => x.ty.spec_is_signed() && x.value() != x.ty.min_value(),
            _ => false,
        }
    }

    /// The condition that negating the literal halts on, where it halts.
    pub open spec fn negation_halt(self) -> Halt {
        match self {
            LiteralView::Integer(x) if x.ty.spec_is_signed() => Halt::Overflow {
                opcode: Opcode::Neg,
                ty: x.ty,
            },
            _ => Halt::InvalidInstruction { opcode: Opcode::Neg },
        }
    }

    /// Whether `result` is the negation of the literal: the additive inverse
    /// of a field or group element, the negated number of an integer, of the
    /// same kind and mode.
    pub open spec fn negated_to(self, result: LiteralView) -> bool {
        match (self, result) {
            (LiteralView::Field(x, mode), LiteralView::Field(y, out)) => y == inverse(x) && out
                == mode,
            (LiteralView::Group(x, mode), LiteralView::Group(y, out)) => y == inverse(x) && out
                == mode,
            (LiteralView::Integer(x), LiteralView::Integer(y)) => {
                &&& y.wf()
                &&& y.ty == x.ty
                &&& y.value() == -x.value()
                &&& y.mode() == x.mode()
            },
            _ => false,
        }
    }

    /// The number that a binary integer operation returns.
    pub open spec fn integer_result(opcode: Opcode, x: int, y: int) -> int {
        match opcode {
            Opcode::Add => x + y,
            Opcode::Sub => x - y,
            Opcode::Mul => x * y,
            Opcode::Div => quotient(x, y),
            Opcode::Pow => power(x, y as nat),
            Opcode::Neg => -x,
        }
    }

    /// Whether the binary operation is defined on the two literals and its
    /// result representable.
    pub open spec fn binary_defined(self, opcode: Opcode, other: LiteralView) -> bool {
        match (self, other) {
            (LiteralView::Field(_, _), LiteralView::Field(_, _)) => opcode == Opcode::Add || opcode
                == Opcode::Sub,
            (LiteralView::Integer(x), LiteralView::Integer(y)) => {
                &&& x.ty == y.ty
                &&& match opcode {
                    Opcode::Add => x.ty.contains(x.value() + y.value()),
                    Opcode::Sub => x.ty.spec_is_signed() && y.value() != y.ty.min_value()
                        && x.ty.contains(x.value() - y.value()),
                    Opcode::Mul => x.ty.contains(x.value() * y.value()),
                    Opcode::Div => y.value() != 0 && x.ty.contains(
                        quotient(x.value(), y.value()),
                    ),
                    Opcode::Pow => y.value() >= 0 && x.ty.contains(
                        power(x.value(), y.value() as nat),
                    ),
                    Opcode::Neg => false,
                }
            },
            _ => false,
        }
    }

    /// The condition that the binary operation halts on, where it halts.
    pub open spec fn binary_halt(self, opcode: Opcode, other: LiteralView) -> Halt {
        match (self, other) {
            (LiteralView::Integer(x), LiteralView::Integer(y)) if x.ty == y.ty => match opcode {
                Opcode::Neg => Halt::InvalidInstruction { opcode },
                Opcode::Sub if !x.ty.spec_is_signed() => Halt::InvalidInstruction { opcode },
                Opcode::Div if y.value() == 0 => Halt::DivisionByZero { ty: x.ty },
                Opcode::Pow if y.value() < 0 => Halt::NegativeExponent { ty: x.ty },
                _ => Halt::Overflow { opcode, ty: x.ty },
            },
            _ => Halt::InvalidInstruction { opcode },
        }
    }

    /// Whether `result` is what the binary operation returns on the two
    /// literals.
    pub open spec fn combined_to(self, opcode: Opcode, other: LiteralView, result: LiteralView) -> bool {
        match (self, other, result) {
            (
                LiteralView::Field(x, first),
                LiteralView::Field(y, second),
                LiteralView::Field(z, out),
            ) => {
                &&& out == first.spec_join(second)
                &&& z == if opcode == Opcode::Add {
                    sum(x, y)
                } else {
                    sum(x, inverse(y))
                }
            },
            (LiteralView::Integer(x), LiteralView::Integer(y), LiteralView::Integer(z)) => {
                &&& z.wf()
                &&& z.ty == x.ty
                &&& z.value() == Self::integer_result(opcode, x.value(), y.value())
                &&& z.mode() == x.mode().spec_join(y.mode())
            },
            _ => false,
        }
    }
}

/// A literal that a circuit binds is bound by every circuit that extends it.
pub proof fn lemma_bound_extends(literal: LiteralView, old: CircuitView, new: CircuitView)
    requires
        new.extends(old),
        literal.bound_in(old),
    ensures
        literal.bound_in(new),
{
    match literal {
        LiteralView::Boolean(b) => {
            lemma_binds_extends(old, new, b);
        },
        LiteralView::Integer(x) => {
            lemma_binds_all_extends(old, new, x.wires);
        },
        _ => {},
    }
}

/// Whether two literals are integers of one type that stand for the same
/// number, whatever their modes.
pub open spec fn same_number(x: LiteralView, y: LiteralView) -> bool {
    &&& x matches LiteralView::Integer(a)
    &&& y matches LiteralView::Integer(b)
    &&& a.ty == b.ty
    &&& a.value() == b.value()
}

/// The modes of the operands do not decide what an integer operation
/// returns: on the same numbers the path over constants and the path over
/// witnesses are defined together, halt alike where they halt, and return
/// the same number where they return.
pub proof fn lemma_paths_agree(
    opcode: Opcode,
    x: LiteralView,
    y: LiteralView,
    r: LiteralView,
    constant_x: LiteralView,
    constant_y: LiteralView,
    constant_r: LiteralView,
)
    requires
        same_number(x, constant_x),
        same_number(y, constant_y),
    ensures
        x.binary_defined(opcode, y) == constant_x.binary_defined(opcode, constant_y),
        x.binary_halt(opcode, y) == constant_x.binary_halt(opcode, constant_y),
        x.negation_defined() == constant_x.negation_defined(),
        x.negation_halt() == constant_x.negation_halt(),
        x.combined_to(opcode, y, r) && constant_x.combined_to(opcode, constant_y, constant_r)
            ==> same_number(r, constant_r),
        x.negated_to(r) && constant_x.negated_to(constant_r) ==> same_number(r, constant_r),
{
}

/// A result of an operation on integers lies in the range of their type, so
/// an operation is defined exactly when the number that it would return is
/// representable.
pub proof fn lemma_result_in_range(opcode: Opcode, x: LiteralView, y: LiteralView, r: LiteralView)
    requires
        x is Integer,
        x.combined_to(opcode, y, r) || x.negated_to(r),
    ensures
        r matches LiteralView::Integer(z) && z.ty.contains(z.value()),
{
    crate::integer::lemma_value_in_range(r->Integer_0);
}

impl Literal {
    /// The kind and mode of the literal.
    pub fn type_of(&self) -> (ty: LiteralType)
        ensures
            ty == self@.type_of(),
    {
        match self {
            Literal::Boolean(b) => LiteralType { kind: LiteralKind::Boolean, mode: b.mode },
            Literal::Field(_, mode) => LiteralType { kind: LiteralKind::Field, mode: *mode },
            Literal::Group(_, mode) => LiteralType { kind: LiteralKind::Group, mode: *mode },
            Literal::Integer(x) => LiteralType {
                kind: LiteralKind::Integer(x.ty()),
                mode: x.mode(),
            },
            Literal::Scalar(_, mode) => LiteralType { kind: LiteralKind::Scalar, mode: *mode },
            Literal::Address(_, mode) => LiteralType { kind: LiteralKind::Address, mode: *mode },
            Literal::String(_, mode) => LiteralType { kind: LiteralKind::String, mode: *mode },
        }
    }

    /// A copy of the literal. A copied integer shares the wires.
    pub fn duplicate(&self) -> (copy: Literal)
        ensures
            copy@ == self@,
    {
        match self {
            Literal::Boolean(b) => Literal::Boolean(*b),
            Literal::Field(x, mode) => Literal::Field(*x, *mode),
            Literal::Group(p, mode) => Literal::Group(*p, *mode),
            Literal::Integer(x) => Literal::Integer(x.duplicate()),
            Literal::Scalar(s, mode) => Literal::Scalar(*s, *mode),
            Literal::Address(a, mode) => Literal::Address(*a, *mode),
            Literal::String(s, mode) => Literal::String(copy_bytes(s), *mode),
        }
    }

    /// Negates the literal: a field or group element by its additive inverse,
    /// which never halts, a signed integer in two's complement.
    ///
    /// Halts with an invalid instruction on every other kind, and with an
    /// overflow on the least value of a signed type.
    pub fn negate(&self, cs: &mut Circuit) -> (out: Result<Literal, Halt>)
        ensures
            out is Ok <==> self@.negation_defined(),
            out matches Ok(r) ==> {
                &&& self@.negated_to(r@)
                &&& Some(final(cs)@.tally()) == match cost(Opcode::Neg, seq![self@.type_of()]) {
                    Some(cost) => Some(old(cs)@.tally().plus(cost)),
                    None => None,
                }
                &&& final(cs)@.extends(old(cs)@)
                &&& r@.bound_in(final(cs)@)
                &&& old(cs)@.sound() && self@.bound_in(old(cs)@) ==> final(cs)@.sound()
            },
            out matches Err(halt) ==> halt == self@.negation_halt(),
    {
        match self {
            Literal::Field(x, mode) => Ok(Literal::Field(x.negate(), *mode)),
            Literal::Group(p, mode) => Ok(Literal::Group(p.negate(), *mode)),
            Literal::Integer(x) => match x.negate(cs) {
                Ok(r) => Ok(Literal::Integer(r)),
                Err(halt) => Err(halt),
            },
            _ => Err(Halt::InvalidInstruction { opcode: Opcode::Neg }),
        }
    }

    /// Applies a binary operation to two literals of one kind: field elements
    /// are added and subtracted in the field, integers go to their gadgets.
    ///
    /// Halts with an invalid instruction where the kinds differ or have no
    /// such operation, and wherever the integer gadget halts.
    pub fn combine(&self, opcode: Opcode, cs: &mut Circuit, other: &Literal) -> (out: Result<
        Literal,
        Halt,
    >)
        ensures
            out is Ok <==> self@.binary_defined(opcode, other@),
            out matches Ok(r) ==> {
                &&& self@.combined_to(opcode, other@, r@)
                &&& Some(final(cs)@.tally()) == match cost(
                    opcode,
                    seq![self@.type_of(), other@.type_of()],
                ) {
                    Some(cost) => Some(old(cs)@.tally().plus(cost)),
                    None => None,
                }
                &&& final(cs)@.extends(old(cs)@)
                &&& r@.bound_in(final(cs)@)
                &&& old(cs)@.sound() && self@.bound_in(old(cs)@) && other@.bound_in(old(cs)@)
                    ==> final(cs)@.sound()
            },
            out matches Err(halt) ==> halt == self@.binary_halt(opcode, other@),
    {
        match (self, other) {
            (Literal::Field(x, first), Literal::Field(y, second)) => match opcode {
                Opcode::Add => Ok(Literal::Field(x.add(y), first.join(*second))),
                Opcode::Sub => Ok(Literal::Field(x.subtract(y), first.join(*second))),
                _ => Err(Halt::InvalidInstruction { opcode }),
            },
            (Literal::Integer(x), Literal::Integer(y)) => {
                let result = match opcode {
                    Opcode::Add => x.add(cs, y),
                    Opcode::Sub => x.subtract(cs, y),
                    Opcode::Mul => x.multiply(cs, y),
                    Opcode::Div => x.divide(cs, y),
                    Opcode::Pow => x.power(cs, y),
                    Opcode::Neg => Err(Halt::InvalidInstruction { opcode }),
                };
                match result {
                    Ok(r) => Ok(Literal::Integer(r)),
                    Err(halt) => Err(halt),
                }
            },
            _ => Err(Halt::InvalidInstruction { opcode }),
        }
    }
}

/// Copies a sequence of bytes.
pub fn copy_bytes(bytes: &Vec<u8>) -> (copy: Vec<u8>)
    ensures
        copy@ == bytes@,
{
    let mut copy: Vec<u8> = Vec::new();
    let mut i: usize = 0;
    while i < bytes.len()
        invariant
            i <= bytes.len(),
            copy@ == bytes@.take(i as int),
        decreases bytes.len() - i,
    {
        copy.push(bytes[i]);
        assert(bytes@.take(i + 1) =~= bytes@.take(i as int).push(bytes@[i as int]));
        i = i + 1;
    }
    assert(bytes@.take(i as int) =~= bytes@);
    copy
}

} // verus!
