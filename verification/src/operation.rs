//! Operations and instructions: evaluation over the store, cost and output
//! type by operand types.

use crate::circuit::{Circuit, CircuitCount, CircuitView, Tally};
use crate::cost::{cost, count, output, output_type, LiteralType};
use crate::halt::{Halt, Opcode};
use crate::literal::{lemma_bound_extends, LiteralView};
use crate::registers::{
    bound_store, lemma_resolve_bound, lemma_store_extends, resolve, Operand, OperandView,
    Register, Registers, Value, ValueView,
};
use vstd::prelude::*;

verus! {

/// The mathematical content of an instruction: its opcode, its operands in
/// order, and the register that takes the result.
pub struct InstructionView {
    pub opcode: Opcode,
    pub operands: Seq<OperandView>,
    pub destination: Register,
}

impl InstructionView {
    /// The halt that binding the destination raises, if any.
    pub open spec fn destination_halt(self, store: Map<u64, ValueView>) -> Option<Halt> {
        if store.dom().contains(self.destination.locator) {
            Some(Halt::AlreadyAssigned { locator: self.destination.locator })
        } else {
            None
        }
    }

    /// The halt that evaluating the instruction over `store` raises, if any.
    /// The operands are resolved in order, then the operation is applied, then
    /// the destination is bound; the first of these to halt decides.
    pub open spec fn halt_of(self, store: Map<u64, ValueView>) -> Option<Halt> {
        if self.operands.len() != self.opcode.spec_arity() {
            Some(Halt::InvalidInstruction { opcode: self.opcode })
        } else {
            match resolve(store, self.operands[0]) {
                Err(halt) => Some(halt),
                Ok(x) => if self.opcode == Opcode::Neg {
                    if !x.negation_defined() {
                        Some(x.negation_halt())
                    } else {
                        self.destination_halt(store)
                    }
                } else {
                    match resolve(store, self.operands[1]) {
                        Err(halt) => Some(halt),
                        Ok(y) => if !x.binary_defined(self.opcode, y) {
                            Some(x.binary_halt(self.opcode, y))
                        } else {
                            self.destination_halt(store)
                        },
                    }
                },
            }
        }
    }

    /// The types of the literals that the operands resolve to over `store`.
    pub open spec fn operand_types(self, store: Map<u64, ValueView>) -> Seq<LiteralType> {
        Seq::new(
            self.operands.len(),
            |i: int|
                match resolve(store, self.operands[i]) {
                    Ok(literal) => literal.type_of(),
                    Err(_) => arbitrary(),
                },
        )
    }

    /// Whether `result` is what the instruction computes over `store`.
    pub open spec fn result_of(self, store: Map<u64, ValueView>, result: LiteralView) -> bool {
        match resolve(store, self.operands[0]) {
            Err(_) => false,
            Ok(x) => if self.opcode == Opcode::Neg {
                x.negated_to(result)
            } else {
                match resolve(store, self.operands[1]) {
                    Err(_) => false,
                    Ok(y) => x.combined_to(self.opcode, y, result),
                }
            },
        }
    }

    /// Whether the circuit grew from `before` to `after` by exactly what the
    /// cost model gives for the instruction over `store`.
    pub open spec fn cost_met(self, store: Map<u64, ValueView>, before: Tally, after: Tally) -> bool {
        match cost(self.opcode, self.operand_types(store)) {
            Some(cost) => after == before.plus(cost),
            None => false,
        }
    }

    /// Whether the circuit binds every wire of every literal operand.
    pub open spec fn bound_in(self, cs: CircuitView) -> bool {
        forall|i: int| 0 <= i < self.operands.len() ==> (#[trigger] self.operands[i]).bound_in(cs)
    }

    /// What a successful evaluation keeps: where the circuit was satisfied
    /// and bound the wires of the store and of the operands, it still is and
    /// does, the wires of the result included.
    pub open spec fn kept(
        self,
        store: Map<u64, ValueView>,
        before: CircuitView,
        next: Map<u64, ValueView>,
        after: CircuitView,
    ) -> bool {
        &&& after.extends(before)
        &&& before.sound() && bound_store(store, before) && self.bound_in(before)
            ==> after.sound() && bound_store(next, after) && self.bound_in(after)
    }

    /// What a successful evaluation leaves: the destination bound to a
    /// literal that is the result, of the type that the cost model gives,
    /// every other register as it was, and the circuit grown by the cost.
    pub open spec fn evaluated(
        self,
        store: Map<u64, ValueView>,
        before: Tally,
        next: Map<u64, ValueView>,
        after: Tally,
    ) -> bool {
        &&& next.dom().contains(self.destination.locator)
        &&& next == store.insert(self.destination.locator, next[self.destination.locator])
        &&& next[self.destination.locator] matches ValueView::Literal(result)
        &&& self.result_of(store, result)
        &&& Some(result.type_of()) == output(self.opcode, self.operand_types(store))
        &&& self.cost_met(store, before, after)
    }
}

/// Binding a bound result keeps a bound store bound, over a circuit that
/// extends the one that bound the store and the operands.
proof fn lemma_kept(
    view: InstructionView,
    store: Map<u64, ValueView>,
    before: CircuitView,
    after: CircuitView,
    result: LiteralView,
)
    requires
        after.extends(before),
        result.bound_in(after),
    ensures
        bound_store(store, before) ==> bound_store(
            store.insert(view.destination.locator, ValueView::Literal(result)),
            after,
        ),
        view.bound_in(before) ==> view.bound_in(after),
        forall|i: int|
            0 <= i < view.operands.len() && bound_store(store, before) && view.bound_in(before)
                && resolve(store, view.operands[i]) is Ok ==> (#[trigger] resolve(
                store,
                view.operands[i],
            ))->Ok_0.bound_in(before),
{
    let next = store.insert(view.destination.locator, ValueView::Literal(result));
    if bound_store(store, before) {
        lemma_store_extends(store, before, after);
        assert forall|locator: u64| next.dom().contains(locator) implies (
        #[trigger] next[locator]).bound_in(after) by {
            if locator != view.destination.locator {
                assert(store[locator].bound_in(after));
            }
        }
    }
    if view.bound_in(before) {
        assert forall|i: int| 0 <= i < view.operands.len() implies (
        #[trigger] view.operands[i]).bound_in(after) by {
            match view.operands[i] {
                OperandView::Literal(l) => {
                    lemma_bound_extends(l, before, after);
                },
                OperandView::Register(_) => {},
            }
        }
    }
    assert forall|i: int|
        0 <= i < view.operands.len() && bound_store(store, before) && view.bound_in(before)
            && resolve(store, view.operands[i]) is Ok implies (#[trigger] resolve(
        store,
        view.operands[i],
    ))->Ok_0.bound_in(before) by {
        lemma_resolve_bound(store, view.operands[i], before);
    }
}

/// One operand and a destination.
#[derive(Debug, PartialEq, Eq)]
pub struct UnaryOperation {
    first: Operand,
    destination: Register,
}

/// Two operands and a destination.
#[derive(Debug, PartialEq, Eq)]
pub struct BinaryOperation {
    first: Operand,
    second: Operand,
    destination: Register,
}

impl UnaryOperation {
    pub closed spec fn operands_view(&self) -> Seq<OperandView> {
        seq![self.first@]
    }

    pub closed spec fn destination_view(&self) -> Register {
        self.destination
    }

    pub fn new(first: Operand, destination: Register) -> (operation: UnaryOperation)
        ensures
            operation.operands_view() == seq![first@],
            operation.destination_view() == destination,
    {
        UnaryOperation { first, destination }
    }

    /// The operand.
    pub fn first(&self) -> (first: &Operand)
        ensures
            self.operands_view() == seq![first@],
    {
        &self.first
    }

    /// The operands in order.
    pub fn operands(&self) -> (operands: Vec<Operand>)
        ensures
            operands@.len() == 1,
            self.operands_view() == seq![operands@[0]@],
    {
        let mut operands: Vec<Operand> = Vec::new();
        operands.push(self.first.duplicate());
        operands
    }

    /// The register that takes the result.
    pub fn destination(&self) -> (destination: &Register)
        ensures
            *destination == self.destination_view(),
    {
        &self.destination
    }
}

impl BinaryOperation {
    pub closed spec fn operands_view(&self) -> Seq<OperandView> {
        seq![self.first@, self.second@]
    }

    pub closed spec fn destination_view(&self) -> Register {
        self.destination
    }

    pub fn new(first: Operand, second: Operand, destination: Register) -> (operation:
        BinaryOperation)
        ensures
            operation.operands_view() == seq![first@, second@],
            operation.destination_view() == destination,
    {
        BinaryOperation { first, second, destination }
    }

    /// The first operand.
    pub fn first(&self) -> (first: &Operand)
        ensures
            self.operands_view().len() == 2,
            self.operands_view()[0] == first@,
    {
        &self.first
    }

    /// The second operand.
    pub fn second(&self) -> (second: &Operand)
        ensures
            self.operands_view().len() == 2,
            self.operands_view()[1] == second@,
    {
        &self.second
    }

    /// The operands in order.
    pub fn operands(&self) -> (operands: Vec<Operand>)
        ensures
            operands@.len() == 2,
            self.operands_view() == seq![operands@[0]@, operands@[1]@],
    {
        let mut operands: Vec<Operand> = Vec::new();
        operands.push(self.first.duplicate());
        operands.push(self.second.duplicate());
        operands
    }

    /// The register that takes the result.
    pub fn destination(&self) -> (destination: &Register)
        ensures
            *destination == self.destination_view(),
    {
        &self.destination
    }
}

/// Negates `first`, storing the outcome in `destination`.
#[derive(Debug, PartialEq, Eq)]
pub struct Neg {
    operation: UnaryOperation,
}

impl View for Neg {
    type V = InstructionView;

    closed spec fn view(&self) -> InstructionView {
        InstructionView {
            opcode: Opcode::Neg,
            operands: self.operation.operands_view(),
            destination: self.operation.destination_view(),
        }
    }
}

impl Neg {
    /// The negation of `first` into `destination`.
    pub fn new(first: Operand, destination: Register) -> (neg: Neg)
        ensures
            neg@ == (InstructionView { opcode: Opcode::Neg, operands: seq![first@], destination }),
    {
        Neg { operation: UnaryOperation::new(first, destination) }
    }

    /// Returns the operands of the instruction.
    pub fn operands(&self) -> (operands: Vec<Operand>)
        ensures
            operands@.len() == 1,
            self@.operands == seq![operands@[0]@],
            self@.opcode == Opcode::Neg,
    {
        self.operation.operands()
    }

    /// Returns the destination register of the instruction.
    pub fn destination(&self) -> (destination: &Register)
        ensures
            *destination == self@.destination,
    {
        self.operation.destination()
    }

    /// Returns the opcode as a string.
    pub fn opcode() -> (name: &'static str)
        ensures
            name@ == Opcode::Neg.spec_name(),
    {
        Opcode::Neg.name()
    }

    /// Evaluates the operation: resolves the operand, negates it, and binds
    /// the result to the destination.
    ///
    /// A halt leaves the store as it was.
    #[verifier::rlimit(40)]
    pub fn evaluate(&self, registers: &mut Registers, cs: &mut Circuit) -> (out: Result<(), Halt>)
        ensures
            out is Ok <==> self@.halt_of(old(registers)@) is None,
            out is Ok ==> self@.evaluated(
                old(registers)@,
                old(cs)@.tally(),
                final(registers)@,
                final(cs)@.tally(),
            ) && self@.kept(old(registers)@, old(cs)@, final(registers)@, final(cs)@),
            out matches Err(halt) ==> Some(halt) == self@.halt_of(old(registers)@) && final(registers)@ == old(registers)@,
    {
        let ghost store = registers@;
        let ghost view = self@;
        let ghost before = cs@;
        // Load the values for the first and second operands.
        let first = match registers.load(self.operation.first()) {
            Ok(literal) => literal,
            Err(halt) => {
                return Err(halt);
            },
        };
        // Perform the operation.
        let result = match first.negate(cs) {
            Ok(result) => result,
            Err(halt) => {
                return Err(halt);
            },
        };
        proof {
            assert(view.operand_types(store) =~= seq![first@.type_of()]);
            lemma_kept(view, store, before, cs@, result@);
        }
        registers.assign(self.operation.destination(), Value::Literal(result))
    }

    /// The resources that negating an operand of the given type takes.
    ///
    /// Halts with an invalid instruction on a type that has no negation.
    pub fn count(input: &LiteralType) -> (out: Result<CircuitCount, Halt>)
        ensures
            out is Ok <==> cost(Opcode::Neg, seq![*input]) is Some,
            out matches Ok(count) ==> cost(Opcode::Neg, seq![*input]) == Some(count@),
            out matches Err(halt) ==> halt == (Halt::InvalidInstruction { opcode: Opcode::Neg }),
    {
        let mut operands: Vec<LiteralType> = Vec::new();
        operands.push(*input);
        proof {
            assert(operands@ =~= seq![*input]);
        }
        count(Opcode::Neg, &operands)
    }

    /// The type of the negation of an operand of the given type: the same
    /// kind in the same mode.
    ///
    /// Halts with an invalid instruction on a type that has no negation.
    pub fn output_type(input_type: &LiteralType) -> (out: Result<LiteralType, Halt>)
        ensures
            out is Ok <==> output(Opcode::Neg, seq![*input_type]) is Some,
            out matches Ok(ty) ==> ty == *input_type && output(Opcode::Neg, seq![*input_type])
                == Some(ty),
            out matches Err(halt) ==> halt == (Halt::InvalidInstruction { opcode: Opcode::Neg }),
    {
        let mut operands: Vec<LiteralType> = Vec::new();
        operands.push(*input_type);
        proof {
            assert(operands@ =~= seq![*input_type]);
        }
        output_type(Opcode::Neg, &operands)
    }

    /// Converts the operation into an instruction.
    pub fn into_instruction(self) -> (instruction: Instruction)
        ensures
            instruction@ == self@,
    {
        Instruction::Neg(self)
    }
}

/// An instruction: one tag per opcode.
#[derive(Debug, PartialEq, Eq)]
pub enum Instruction {
    Neg(Neg),
    Add(BinaryOperation),
    Sub(BinaryOperation),
    Mul(BinaryOperation),
    Div(BinaryOperation),
    Pow(BinaryOperation),
}

impl View for Instruction {
    type V = InstructionView;

    open spec fn view(&self) -> InstructionView {
        match self {
            Instruction::Neg(neg) => neg@,
            Instruction::Add(operation) => InstructionView {
                opcode: Opcode::Add,
                operands: operation.operands_view(),
                destination: operation.destination_view(),
            },
            Instruction::Sub(operation) => InstructionView {
                opcode: Opcode::Sub,
                operands: operation.operands_view(),
                destination: operation.destination_view(),
            },
            Instruction::Mul(operation) => InstructionView {
                opcode: Opcode::Mul,
                operands: operation.operands_view(),
                destination: operation.destination_view(),
            },
            Instruction::Div(operation) => InstructionView {
                opcode: Opcode::Div,
                operands: operation.operands_view(),
                destination: operation.destination_view(),
            },
            Instruction::Pow(operation) => InstructionView {
                opcode: Opcode::Pow,
                operands: operation.operands_view(),
                destination: operation.destination_view(),
            },
        }
    }
}

/// Evaluates a binary operation under the given opcode.
#[verifier::rlimit(40)]
fn evaluate_binary(
    opcode: Opcode,
    operation: &BinaryOperation,
    registers: &mut Registers,
    cs: &mut Circuit,
) -> (out: Result<(), Halt>)
    requires
        opcode != Opcode::Neg,
    ensures
        ({
            let view = InstructionView {
                opcode,
                operands: operation.operands_view(),
                destination: operation.destination_view(),
            };
            &&& out is Ok <==> view.halt_of(old(registers)@) is None
            &&& out is Ok ==> view.evaluated(
                old(registers)@,
                old(cs)@.tally(),
                final(registers)@,
                final(cs)@.tally(),
            ) && view.kept(old(registers)@, old(cs)@, final(registers)@, final(cs)@)
            &&& out matches Err(halt) ==> Some(halt) == view.halt_of(old(registers)@) && final(registers)@ == old(registers)@
        }),
{
    let ghost store = registers@;
    let ghost before = cs@;
    let ghost view = InstructionView {
        opcode,
        operands: operation.operands_view(),
        destination: operation.destination_view(),
    };
    let first = match registers.load(operation.first()) {
        Ok(literal) => literal,
        Err(halt) => {
            return Err(halt);
        },
    };
    let second = match registers.load(operation.second()) {
        Ok(literal) => literal,
        Err(halt) => {
            return Err(halt);
        },
    };
    let result = match first.combine(opcode, cs, second) {
        Ok(result) => result,
        Err(halt) => {
            return Err(halt);
        },
    };
    proof {
        assert(view.operand_types(store) =~= seq![first@.type_of(), second@.type_of()]);
        lemma_kept(view, store, before, cs@, result@);
    }
    registers.assign(operation.destination(), Value::Literal(result))
}

impl Instruction {
    /// The opcode of the instruction.
    pub fn opcode(&self) -> (opcode: Opcode)
        ensures
            opcode == self@.opcode,
    {
        match self {
            Instruction::Neg(_) => Opcode::Neg,
            Instruction::Add(_) => Opcode::Add,
            Instruction::Sub(_) => Opcode::Sub,
            Instruction::Mul(_) => Opcode::Mul,
            Instruction::Div(_) => Opcode::Div,
            Instruction::Pow(_) => Opcode::Pow,
        }
    }

    /// The operands of the instruction in order.
    pub fn operands(&self) -> (operands: Vec<Operand>)
        ensures
            operands@.len() == self@.opcode.spec_arity(),
            self@.operands == Seq::new(operands@.len(), |i: int| operands@[i]@),
    {
        let operands = match self {
            Instruction::Neg(neg) => neg.operands(),
            Instruction::Add(operation) => operation.operands(),
            Instruction::Sub(operation) => operation.operands(),
            Instruction::Mul(operation) => operation.operands(),
            Instruction::Div(operation) => operation.operands(),
            Instruction::Pow(operation) => operation.operands(),
        };
        assert(self@.operands =~= Seq::new(operands@.len(), |i: int| operands@[i]@));
        operands
    }

    /// The register that takes the result.
    pub fn destination(&self) -> (destination: &Register)
        ensures
            *destination == self@.destination,
    {
        match self {
            Instruction::Neg(neg) => neg.destination(),
            Instruction::Add(operation) => operation.destination(),
            Instruction::Sub(operation) => operation.destination(),
            Instruction::Mul(operation) => operation.destination(),
            Instruction::Div(operation) => operation.destination(),
            Instruction::Pow(operation) => operation.destination(),
        }
    }

    /// Evaluates the instruction: resolves the operands in order, applies the
    /// operation of the opcode, and binds the result to the destination.
    ///
    /// A halt leaves the store as it was.
    #[verifier::rlimit(40)]
    pub fn evaluate(&self, registers: &mut Registers, cs: &mut Circuit) -> (out: Result<(), Halt>)
        ensures
            out is Ok <==> self@.halt_of(old(registers)@) is None,
            out is Ok ==> self@.evaluated(
                old(registers)@,
                old(cs)@.tally(),
                final(registers)@,
                final(cs)@.tally(),
            ) && self@.kept(old(registers)@, old(cs)@, final(registers)@, final(cs)@),
            out matches Err(halt) ==> Some(halt) == self@.halt_of(old(registers)@) && final(registers)@ == old(registers)@,
    {
        match self {
            Instruction::Neg(neg) => neg.evaluate(registers, cs),
            Instruction::Add(operation) => evaluate_binary(Opcode::Add, operation, registers, cs),
            Instruction::Sub(operation) => evaluate_binary(Opcode::Sub, operation, registers, cs),
            Instruction::Mul(operation) => evaluate_binary(Opcode::Mul, operation, registers, cs),
            Instruction::Div(operation) => evaluate_binary(Opcode::Div, operation, registers, cs),
            Instruction::Pow(operation) => evaluate_binary(Opcode::Pow, operation, registers, cs),
        }
    }

    /// The resources that the instruction takes on operands of the given
    /// types, looked up without evaluating.
    pub fn count(&self, operand_types: &Vec<LiteralType>) -> (out: Result<CircuitCount, Halt>)
        ensures
            out is Ok <==> cost(self@.opcode, operand_types@) is Some,
            out matches Ok(count) ==> cost(self@.opcode, operand_types@) == Some(count@),
            out matches Err(halt) ==> halt == (Halt::InvalidInstruction { opcode: self@.opcode }),
    {
        count(self.opcode(), operand_types)
    }

    /// The type of what the instruction returns on operands of the given
    /// types, looked up without evaluating.
    pub fn output_type(&self, operand_types: &Vec<LiteralType>) -> (out: Result<LiteralType, Halt>)
        ensures
            out is Ok <==> output(self@.opcode, operand_types@) is Some,
            out matches Ok(ty) ==> output(self@.opcode, operand_types@) == Some(ty),
            out matches Err(halt) ==> halt == (Halt::InvalidInstruction { opcode: self@.opcode }),
    {
        output_type(self.opcode(), operand_types)
    }
}

} // verus!
