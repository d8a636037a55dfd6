//! Opcodes, and the fatal conditions that stop an execution.

use crate::integer::IntegerType;
use vstd::prelude::*;

verus! {

/// The operations of the instruction set.
#[derive(Clone, Copy, Debug, PartialEq, Eq, Structural)]
pub enum Opcode {
    Neg,
    Add,
    Sub,
    Mul,
    Div,
    Pow,
}

impl Opcode {
    /// The name of the opcode as instructions spell it.
    pub fn name(self) -> (name: &'static str)
        ensures
            name@ == self.spec_name(),
    {
        match self {
            Opcode::Neg => "neg",
            Opcode::Add => "add",
            Opcode::Sub => "sub",
            Opcode::Mul => "mul",
            Opcode::Div => "div",
            Opcode::Pow => "pow",
        }
    }

    pub open spec fn spec_name(self) -> Seq<char> {
        match self {
            Opcode::Neg => "neg"@,
            Opcode::Add => "add"@,
            Opcode::Sub => "sub"@,
            Opcode::Mul => "mul"@,
            Opcode::Div => "div"@,
            Opcode::Pow => "pow"@,
        }
    }

    pub open spec fn spec_code(self) -> u32 {
        match self {
            Opcode::Add => 0,
            Opcode::Sub => 1,
            Opcode::Mul => 2,
            Opcode::Div => 3,
            Opcode::Pow => 4,
            Opcode::Neg => 5,
        }
    }

    /// The number that stands for the opcode in encoded instructions.
    #[verifier::when_used_as_spec(spec_code)]
    pub fn code(self) -> (code: u32)
        ensures
            code == self.spec_code(),
    {
        match self {
            Opcode::Add => 0,
            Opcode::Sub => 1,
            Opcode::Mul => 2,
            Opcode::Div => 3,
            Opcode::Pow => 4,
            Opcode::Neg => 5,
        }
    }

    pub open spec fn spec_from_code(code: u32) -> Option<Opcode> {
        if code == 0 {
            Some(Opcode::Add)
        } else if code == 1 {
            Some(Opcode::Sub)
        } else if code == 2 {
            Some(Opcode::Mul)
        } else if code == 3 {
            Some(Opcode::Div)
        } else if code == 4 {
            Some(Opcode::Pow)
        } else if code == 5 {
            Some(Opcode::Neg)
        } else {
            None
        }
    }

    /// The opcode that a number stands for, if any.
    #[verifier::when_used_as_spec(spec_from_code)]
    pub fn from_code(code: u32) -> (opcode: Option<Opcode>)
        ensures
            opcode == Opcode::spec_from_code(code),
            opcode matches Some(found) ==> found.spec_code() == code,
    {
        if code == 0 {
            Some(Opcode::Add)
        } else if code == 1 {
            Some(Opcode::Sub)
        } else if code == 2 {
            Some(Opcode::Mul)
        } else if code == 3 {
            Some(Opcode::Div)
        } else if code == 4 {
            Some(Opcode::Pow)
        } else if code == 5 {
            Some(Opcode::Neg)
        } else {
            None
        }
    }

    /// The number of operands that the opcode takes.
    pub fn arity(self) -> (arity: usize)
        ensures
            arity == self.spec_arity(),
    {
        match self {
            Opcode::Neg => 1,
            _ => 2,
        }
    }

    pub open spec fn spec_arity(self) -> usize {
        match self {
            Opcode::Neg => 1,
            _ => 2,
        }
    }
}

/// A fatal condition. It ends the whole execution: the registers and the
/// circuit of a halted execution are to be discarded, never used again.
#[derive(Clone, Copy, Debug, PartialEq, Eq, Structural)]
pub enum Halt {
    /// The result of an integer operation does not fit the operand type.
    Overflow { opcode: Opcode, ty: IntegerType },
    /// The divisor is zero.
    DivisionByZero { ty: IntegerType },
    /// The exponent is negative.
    NegativeExponent { ty: IntegerType },
    /// The opcode is not defined on operands of these kinds.
    InvalidInstruction { opcode: Opcode },
    /// An operand names a register that holds no value.
    UnboundRegister { locator: u64 },
    /// An operand names a register that holds a composite value.
    NotALiteral { locator: u64 },
    /// The destination register already holds a value.
    AlreadyAssigned { locator: u64 },
}

impl Halt {
    /// The diagnostic of the condition in plain text.
    pub fn message(&self) -> (message: &'static str)
        ensures
            message@ == self.spec_message(),
    {
        match self {
            Halt::Overflow { .. } => "Integer overflow",
            Halt::DivisionByZero { .. } => "Division by zero",
            Halt::NegativeExponent { .. } => "Negative exponent",
            Halt::InvalidInstruction { .. } => "Invalid instruction",
            Halt::UnboundRegister { .. } => "Register is not assigned",
            Halt::NotALiteral { .. } => "Register does not hold a literal",
            Halt::AlreadyAssigned { .. } => "Register is already assigned",
        }
    }

    pub open spec fn spec_message(self) -> Seq<char> {
        match self {
            Halt::Overflow { .. } => "Integer overflow"@,
            Halt::DivisionByZero { .. } => "Division by zero"@,
            Halt::NegativeExponent { .. } => "Negative exponent"@,
            Halt::InvalidInstruction { .. } => "Invalid instruction"@,
            Halt::UnboundRegister { .. } => "Register is not assigned"@,
            Halt::NotALiteral { .. } => "Register does not hold a literal"@,
            Halt::AlreadyAssigned { .. } => "Register is already assigned"@,
        }
    }
}

} // verus!
