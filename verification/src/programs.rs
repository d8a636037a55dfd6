//! The roles of the program model: what a program, a record, an execution, a
//! transaction and an account have to offer. The library gives no
//! implementation of them but [`crate::objects::VirtualRecord`]; they are here
//! for its users to implement.

use vstd::prelude::*;

verus! {

/// The address of an account.
pub trait Address {

}

/// The key that an account signs with.
pub trait PrivateKey {

}

/// A program: something executable with an identity and keys.
pub trait Program: Executable {
    type ID;

    type ProofSystem;

    type ProvingKey;

    type VerifyingKey;

    fn id(&self) -> Self::ID;
}

/// A record that a program consumes or creates.
pub trait Record {
    fn is_dummy(&self) -> bool;
}

/// A register of a program, and what it holds.
pub trait Register {
    type Data;
}

/// A piece of the state that a program runs on.
pub enum State<Record: crate::programs::Record, Register: crate::programs::Register> {
    Input(u8, Record),
    Output(u8, Record),
    Register(u8, Register),
}

/// The outcome of running a program, with its proof.
pub trait Execution {
    type Proof;

    type VerifierInputs;

    type VerifyingKey;

    fn is_valid(&self) -> bool;

    fn execution_proof(&self) -> Self::Proof;

    fn verifier_inputs(&self) -> Self::VerifierInputs;

    fn verifying_key(&self) -> Self::VerifyingKey;
}

/// Something that can be given state and run.
pub trait Executable {
    type Arguments;

    type Execution: Execution;

    type Record: Record;

    type Register: Register;

    type State;

    fn add_state(&mut self, state: Self::State);

    fn execute(&self, arguments: Self::Arguments) -> Self::Execution;
}

/// An input of a transaction.
pub trait TransactionIn {
    type Execution: Execution;

    type PrivateKey: PrivateKey;

    type Record: Record;

    type Signature;
}

/// An output of a transaction.
pub trait TransactionOut {
    type Execution: Execution;

    type Record: Record;
}

/// Builds a transaction from inputs and outputs.
pub trait TransactionBuilder: Sized {
    type Input: TransactionIn;

    type Output: TransactionOut;

    type Transaction;

    fn new() -> Self;

    fn add_input(&mut self, input: Self::Input) -> Self;

    fn add_inputs(&mut self, inputs: &[Self::Input]) -> Self;

    fn add_output(&mut self, output: Self::Output) -> Self;

    fn add_outputs(&mut self, outputs: &[Self::Output]) -> Self;

    fn build(&self) -> Self::Transaction;
}

/// An account: a key and the records that it owns.
pub trait Account: Sized {
    type Address: Address;

    type Amount;

    type PrivateKey: PrivateKey;

    type Record: Record;

    /// What selecting records can fail with.
    type Error;

    fn from(private_key: Self::PrivateKey) -> Self;

    fn add_record(&mut self, record: Self::Record);

    fn get_records_for_balance(&self, balance: &Self::Amount) -> Result<
        Vec<Self::Record>,
        Self::Error,
    >;
}

} // verus!
