//! The encoded form of instructions and entrypoints, as it travels between
//! programs: numbers and operand lists, not yet checked.

use crate::registers::{Operand, OperandView};
use vstd::prelude::*;

verus! {

/// An encoded instruction: the number of its opcode, then the destination as
/// the first operand, then the inputs in order.
#[derive(Debug, PartialEq, Eq)]
pub struct Instruction {
    pub opcode: u32,
    pub operands: Vec<Operand>,
}

/// The mathematical content of an encoded instruction.
pub struct InstructionView {
    pub opcode: u32,
    pub operands: Seq<OperandView>,
}

impl View for Instruction {
    type V = InstructionView;

    open spec fn view(&self) -> InstructionView {
        InstructionView {
            opcode: self.opcode,
            operands: Seq::new(self.operands@.len(), |i: int| self.operands@[i]@),
        }
    }
}

/// An encoded entrypoint.
#[derive(Debug, PartialEq, Eq)]
pub struct Entrypoint {
    pub argument_start_variable: u32,
    pub instructions: Vec<Instruction>,
}

/// The mathematical content of an encoded entrypoint.
pub struct EntrypointView {
    pub argument_start_variable: u32,
    pub instructions: Seq<InstructionView>,
}

impl View for Entrypoint {
    type V = EntrypointView;

    open spec fn view(&self) -> EntrypointView {
        EntrypointView {
            argument_start_variable: self.argument_start_variable,
            instructions: Seq::new(self.instructions@.len(), |i: int| self.instructions@[i]@),
        }
    }
}

} // verus!
