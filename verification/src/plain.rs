//! What a literal, an operand and an instruction say, apart from the wires
//! that say it. Two instructions with the same plain content read and
//! evaluate alike; encodings and texts are functions of the plain content.

use crate::circuit::{wire_cost, Tally};
use crate::cost::LiteralKind;
use crate::field::{modulus, AddressValue, Scalar};
use crate::halt::Opcode;
use crate::integer::{wires_cost, IntegerType};
use crate::literal::LiteralView;
use crate::mode::Mode;
use crate::operation::InstructionView;
use crate::registers::{OperandView, Register};
use vstd::prelude::*;

verus! {

/// The plain content of a literal: its kind, its value and its mode.
pub enum Plain {
    Boolean(bool, Mode),
    Field(int, Mode),
    Group(int, Mode),
    Integer(IntegerType, int, Mode),
    Scalar(Scalar, Mode),
    Address(AddressValue, Mode),
    String(Seq<u8>, Mode),
}

impl Plain {
    /// Whether the value is one of the kind: a residue for a field or group
    /// element, a number of the type for an integer.
    pub open spec fn wf(self) -> bool {
        match self {
            Plain::Field(v, _) => 0 <= v < modulus(),
            Plain::Group(v, _) => 0 <= v < modulus(),
            Plain::Integer(ty, v, _) => ty.contains(v),
            Plain::String(s, _) => s.len() < 0x1_0000_0000_0000_0000,
            _ => true,
        }
    }

    pub open spec fn kind(self) -> LiteralKind {
        match self {
            Plain::Boolean(_, _) => LiteralKind::Boolean,
            Plain::Field(_, _) => LiteralKind::Field,
            Plain::Group(_, _) => LiteralKind::Group,
            Plain::Integer(ty, _, _) => LiteralKind::Integer(ty),
            Plain::Scalar(_, _) => LiteralKind::Scalar,
            Plain::Address(_, _) => LiteralKind::Address,
            Plain::String(_, _) => LiteralKind::String,
        }
    }

    pub open spec fn mode(self) -> Mode {
        match self {
            Plain::Boolean(_, mode) => mode,
            Plain::Field(_, mode) => mode,
            Plain::Group(_, mode) => mode,
            Plain::Integer(_, _, mode) => mode,
            Plain::Scalar(_, mode) => mode,
            Plain::Address(_, mode) => mode,
            Plain::String(_, mode) => mode,
        }
    }

    /// What allocating a literal of this content takes: the wires of a
    /// boolean or an integer. The other kinds have no wires.
    pub open spec fn allocation(self) -> Tally {
        match self {
            Plain::Boolean(_, mode) => wire_cost(mode),
            Plain::Integer(ty, _, mode) => wires_cost(mode, ty.spec_width() as nat),
            _ => Tally::zero(),
        }
    }
}

impl LiteralView {
    /// The plain content of the literal.
    pub open spec fn plain(self) -> Plain {
        match self {
            LiteralView::Boolean(b) => Plain::Boolean(b.value, b.mode),
            LiteralView::Field(v, mode) => Plain::Field(v, mode),
            LiteralView::Group(v, mode) => Plain::Group(v, mode),
            LiteralView::Integer(x) => Plain::Integer(x.ty, x.value(), x.mode()),
            LiteralView::Scalar(s, mode) => Plain::Scalar(s, mode),
            LiteralView::Address(a, mode) => Plain::Address(a, mode),
            LiteralView::String(s, mode) => Plain::String(s, mode),
        }
    }
}

/// The plain content of an operand.
pub enum PlainOperand {
    Register(Register),
    Literal(Plain),
}

impl PlainOperand {
    pub open spec fn wf(self) -> bool {
        match self {
            PlainOperand::Register(_) => true,
            PlainOperand::Literal(p) => p.wf(),
        }
    }

    /// What allocating the operand takes.
    pub open spec fn allocation(self) -> Tally {
        match self {
            PlainOperand::Register(_) => Tally::zero(),
            PlainOperand::Literal(p) => p.allocation(),
        }
    }
}

impl OperandView {
    /// The plain content of the operand.
    pub open spec fn plain(self) -> PlainOperand {
        match self {
            OperandView::Register(r) => PlainOperand::Register(r),
            OperandView::Literal(l) => PlainOperand::Literal(l.plain()),
        }
    }
}

/// The plain content of an instruction.
pub struct PlainInstruction {
    pub opcode: Opcode,
    pub operands: Seq<PlainOperand>,
    pub destination: Register,
}

impl PlainInstruction {
    /// Whether the instruction has the operands that its opcode takes, each
    /// well formed.
    pub open spec fn wf(self) -> bool {
        &&& self.operands.len() == self.opcode.spec_arity()
        &&& forall|i: int| 0 <= i < self.operands.len() ==> (#[trigger] self.operands[i]).wf()
    }

    /// What allocating the operands takes.
    pub open spec fn allocation(self) -> Tally {
        if self.operands.len() == 1 {
            self.operands[0].allocation()
        } else {
            self.operands[0].allocation().plus(self.operands[1].allocation())
        }
    }
}

impl InstructionView {
    /// The plain content of the instruction.
    pub open spec fn plain(self) -> PlainInstruction {
        PlainInstruction {
            opcode: self.opcode,
            operands: Seq::new(self.operands.len(), |i: int| self.operands[i].plain()),
            destination: self.destination,
        }
    }
}

} // verus!
