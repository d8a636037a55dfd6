//! Entrypoints: instruction lists, decoded from and encoded to their
//! unchecked form.

use crate::halt::Opcode;
use crate::ir;
use crate::operation::{BinaryOperation, Instruction, InstructionView, Neg};
use crate::registers::{Operand, OperandView};
use vstd::prelude::*;

verus! {

/// Why an encoded instruction is not an instruction.
#[derive(Clone, Copy, Debug, PartialEq, Eq, Structural)]
pub enum DecodeError {
    /// No opcode has this number.
    UnknownOpcode { code: u32 },
    /// The opcode takes another number of operands.
    WrongOperandCount { opcode: Opcode, found: usize },
    /// The first operand, which names the destination, is not a register.
    DestinationNotRegister { opcode: Opcode },
}

/// The instruction that an encoded instruction stands for, or why it stands
/// for none.
pub open spec fn decoded(raw: ir::InstructionView) -> Result<InstructionView, DecodeError> {
    match Opcode::spec_from_code(raw.opcode) {
        None => Err(DecodeError::UnknownOpcode { code: raw.opcode }),
        Some(opcode) => if raw.operands.len() != opcode.spec_arity() + 1 {
            Err(DecodeError::WrongOperandCount { opcode, found: raw.operands.len() as usize })
        } else {
            match raw.operands[0] {
                OperandView::Register(destination) => Ok(
                    InstructionView {
                        opcode,
                        operands: raw.operands.subrange(1, raw.operands.len() as int),
                        destination,
                    },
                ),
                OperandView::Literal(_) => Err(DecodeError::DestinationNotRegister { opcode }),
            }
        },
    }
}

/// The encoded form of an instruction.
pub open spec fn encoded(instruction: InstructionView) -> ir::InstructionView {
    ir::InstructionView {
        opcode: instruction.opcode.spec_code(),
        operands: seq![OperandView::Register(instruction.destination)] + instruction.operands,
    }
}

/// The instructions that a list of encoded instructions stands for, or the
/// error of the first that stands for none.
pub open spec fn decoded_all(raws: Seq<ir::InstructionView>) -> Result<
    Seq<InstructionView>,
    DecodeError,
>
    decreases raws.len(),
{
    if raws.len() == 0 {
        Ok(Seq::empty())
    } else {
        match decoded_all(raws.drop_last()) {
            Err(error) => Err(error),
            Ok(instructions) => match decoded(raws.last()) {
                Err(error) => Err(error),
                Ok(instruction) => Ok(instructions.push(instruction)),
            },
        }
    }
}

/// Decoding undoes encoding.
pub proof fn lemma_decode_encode(instruction: InstructionView)
    requires
        instruction.operands.len() == instruction.opcode.spec_arity(),
    ensures
        decoded(encoded(instruction)) == Ok::<InstructionView, DecodeError>(instruction),
{
    let raw = encoded(instruction);
    assert(raw.operands.subrange(1, raw.operands.len() as int) =~= instruction.operands);
}

/// Encoding undoes decoding.
pub proof fn lemma_encode_decode(raw: ir::InstructionView)
    requires
        decoded(raw) is Ok,
    ensures
        encoded(decoded(raw)->Ok_0) == raw,
{
    let instruction = decoded(raw)->Ok_0;
    assert(encoded(instruction).operands =~= raw.operands);
}

impl Instruction {
    /// Checks an encoded instruction and gives the instruction that it stands
    /// for.
    pub fn decode(raw: &ir::Instruction) -> (out: Result<Instruction, DecodeError>)
        ensures
            out matches Ok(instruction) ==> decoded(raw@) == Ok::<InstructionView, DecodeError>(
                instruction@,
            ),
            out matches Err(error) ==> decoded(raw@) == Err::<InstructionView, DecodeError>(error),
    {
        let opcode = match Opcode::from_code(raw.opcode) {
            Some(opcode) => opcode,
            None => {
                return Err(DecodeError::UnknownOpcode { code: raw.opcode });
            },
        };
        if raw.operands.len() != opcode.arity() + 1 {
            return Err(DecodeError::WrongOperandCount { opcode, found: raw.operands.len() });
        }
        let destination = match &raw.operands[0] {
            Operand::Register(register) => *register,
            Operand::Literal(_) => {
                return Err(DecodeError::DestinationNotRegister { opcode });
            },
        };
        let ghost inputs = raw@.operands.subrange(1, raw@.operands.len() as int);
        let first = raw.operands[1].duplicate();
        match opcode {
            Opcode::Neg => {
                let instruction = Instruction::Neg(Neg::new(first, destination));
                assert(instruction@.operands =~= inputs);
                Ok(instruction)
            },
            _ => {
                let second = raw.operands[2].duplicate();
                let operation = BinaryOperation::new(first, second, destination);
                assert(operation.operands_view() =~= inputs);
                Ok(
                    match opcode {
                        Opcode::Add => Instruction::Add(operation),
                        Opcode::Sub => Instruction::Sub(operation),
                        Opcode::Mul => Instruction::Mul(operation),
                        Opcode::Div => Instruction::Div(operation),
                        _ => Instruction::Pow(operation),
                    },
                )
            },
        }
    }

    /// The encoded form of the instruction.
    pub fn encode(&self) -> (raw: ir::Instruction)
        ensures
            raw@ == encoded(self@),
    {
        let mut operands: Vec<Operand> = Vec::new();
        operands.push(Operand::Register(*self.destination()));
        let mut inputs = self.operands();
        let ghost all = self@.operands;
        let n: usize = inputs.len();
        let mut i: usize = 0;
        while i < n
            invariant
                i <= n,
                n == inputs@.len(),
                n == all.len(),
                forall|j: int| 0 <= j < n ==> inputs@[j]@ == all[j],
                operands@.len() == i + 1,
                operands@[0]@ == OperandView::Register(self@.destination),
                forall|j: int| 0 <= j < i ==> operands@[j + 1]@ == all[j],
            decreases n - i,
        {
            operands.push(inputs[i].duplicate());
            i = i + 1;
        }
        let raw = ir::Instruction { opcode: self.opcode().code(), operands };
        assert(raw@.operands =~= encoded(self@).operands);
        raw
    }
}

/// The list of instructions that a call of a program starts at.
#[derive(Debug, PartialEq, Eq)]
pub struct Entrypoint {
    pub argument_start_variable: u32,
    pub instructions: Vec<Instruction>,
}

/// The mathematical content of an [`Entrypoint`].
pub struct EntrypointView {
    pub argument_start_variable: u32,
    pub instructions: Seq<InstructionView>,
}

impl View for Entrypoint {
    type V = EntrypointView;

    open spec fn view(&self) -> EntrypointView {
        EntrypointView {
            argument_start_variable: self.argument_start_variable,
            instructions: Seq::new(self.instructions@.len(), |i: int| self.instructions@[i]@),
        }
    }
}

impl Entrypoint {
    /// Checks an encoded entrypoint: decodes its instructions in order and
    /// fails with the error of the first that does not decode.
    pub fn decode(entrypoint: ir::Entrypoint) -> (out: Result<Entrypoint, DecodeError>)
        ensures
            out matches Ok(decoded) ==> decoded@.argument_start_variable
                == entrypoint@.argument_start_variable && decoded_all(entrypoint@.instructions)
                == Ok::<Seq<InstructionView>, DecodeError>(decoded@.instructions),
            out matches Err(error) ==> decoded_all(entrypoint@.instructions) == Err::<
                Seq<InstructionView>,
                DecodeError,
            >(error),
    {
        let ghost raws = entrypoint@.instructions;
        let mut instructions: Vec<Instruction> = Vec::new();
        let n: usize = entrypoint.instructions.len();
        let mut i: usize = 0;
        proof {
            assert(raws.take(0) =~= Seq::<ir::InstructionView>::empty());
            assert(Seq::new(instructions@.len(), |j: int| instructions@[j]@) =~= Seq::<
                InstructionView,
            >::empty());
        }
        while i < n
            invariant
                i <= n,
                n == entrypoint.instructions@.len(),
                raws == entrypoint@.instructions,
                instructions@.len() == i,
                decoded_all(raws.take(i as int)) == Ok::<Seq<InstructionView>, DecodeError>(
                    Seq::new(instructions@.len(), |j: int| instructions@[j]@),
                ),
            decreases n - i,
        {
            let ghost before = Seq::new(instructions@.len(), |j: int| instructions@[j]@);
            proof {
                assert(raws.take(i + 1).drop_last() =~= raws.take(i as int));
                assert(raws.take(i + 1).last() == entrypoint.instructions@[i as int]@);
            }
            match Instruction::decode(&entrypoint.instructions[i]) {
                Ok(instruction) => {
                    instructions.push(instruction);
                    proof {
                        assert(Seq::new(instructions@.len(), |j: int| instructions@[j]@)
                            =~= before.push(instruction@));
                    }
                },
                Err(error) => {
                    proof {
                        lemma_error_stays(raws, i + 1);
                    }
                    return Err(error);
                },
            }
            i = i + 1;
        }
        proof {
            assert(raws.take(n as int) =~= raws);
        }
        Ok(
            Entrypoint {
                argument_start_variable: entrypoint.argument_start_variable,
                instructions,
            },
        )
    }

    /// The encoded form of the entrypoint: each instruction encoded, in
    /// order.
    pub fn encode(&self) -> (raw: ir::Entrypoint)
        ensures
            raw@.argument_start_variable == self@.argument_start_variable,
            raw@.instructions == Seq::new(
                self@.instructions.len(),
                |i: int| encoded(self@.instructions[i]),
            ),
    {
        let mut instructions: Vec<ir::Instruction> = Vec::new();
        let n: usize = self.instructions.len();
        let mut i: usize = 0;
        while i < n
            invariant
                i <= n,
                n == self.instructions@.len(),
                instructions@.len() == i,
                forall|j: int| 0 <= j < i ==> instructions@[j]@ == encoded(self.instructions@[j]@),
            decreases n - i,
        {
            instructions.push(self.instructions[i].encode());
            i = i + 1;
        }
        let raw = ir::Entrypoint {
            argument_start_variable: self.argument_start_variable,
            instructions,
        };
        assert(raw@.instructions =~= Seq::new(
            self@.instructions.len(),
            |i: int| encoded(self@.instructions[i]),
        ));
        raw
    }
}

/// Once a prefix of a list fails to decode, the whole list fails with the
/// same error.
pub proof fn lemma_error_stays(raws: Seq<ir::InstructionView>, k: int)
    requires
        0 <= k <= raws.len(),
        decoded_all(raws.take(k)) is Err,
    ensures
        decoded_all(raws) == decoded_all(raws.take(k)),
    decreases raws.len() - k,
{
    if k < raws.len() {
        assert(raws.take(k + 1).drop_last() =~= raws.take(k));
        lemma_error_stays(raws, k + 1);
    } else {
        assert(raws.take(k) =~= raws);
    }
}

/// Decoding an encoded entrypoint gives its instructions back.
pub proof fn lemma_entrypoint_round_trip(instructions: Seq<InstructionView>)
    requires
        forall|i: int|
            0 <= i < instructions.len() ==> (#[trigger] instructions[i]).operands.len()
                == instructions[i].opcode.spec_arity(),
    ensures
        decoded_all(Seq::new(instructions.len(), |i: int| encoded(instructions[i]))) == Ok::<
            Seq<InstructionView>,
            DecodeError,
        >(instructions),
    decreases instructions.len(),
{
    let raws = Seq::new(instructions.len(), |i: int| encoded(instructions[i]));
    if instructions.len() > 0 {
        let rest = instructions.drop_last();
        lemma_entrypoint_round_trip(rest);
        assert(raws.drop_last() =~= Seq::new(rest.len(), |i: int| encoded(rest[i])));
        lemma_decode_encode(instructions.last());
        assert(rest.push(instructions.last()) =~= instructions);
    } else {
        assert(instructions =~= Seq::<InstructionView>::empty());
    }
}

} // verus!
