//! Arithmetic and instruction-dispatch core of a zero-knowledge virtual machine.
//!
//! Every value carries a visibility [`mode::Mode`]. Fixed-width integers are
//! sequences of boolean wires that live in a [`circuit::Circuit`]; an operation
//! on them either folds constants natively or emits boolean-wire constraints,
//! and its cost is known before anything is emitted.
//!
//! The modules, leaves first:
//!
//! - [`mode`]: the lattice `Constant < Public < Private`.
//! - [`bits`], [`bytes`], [`decimal`]: numbers as bit sequences, bytes and
//!   decimal text.
//! - [`circuit`]: wires, relations, gates, and what it means for an
//!   assignment to satisfy a circuit.
//! - [`integer`]: integers as wires, their allocation and their bit and byte
//!   views; [`arithmetic`], [`multiply`], [`divide`], [`power`]: the
//!   operations on them.
//! - [`field`]: elements of the base field and the kinds made of them.
//! - [`literal`]: the union of the kinds of value; [`registers`]: operands
//!   and the store.
//! - [`cost`]: what every operation takes, by opcode and operand types.
//! - [`operation`]: instructions and their evaluation; [`halt`]: opcodes and
//!   the fatal conditions.
//! - [`plain`], [`encoding`], [`text`], [`syntax`]: the binary form and the
//!   text of instructions.
//! - [`ir`], [`entrypoint`]: instruction lists in their unchecked and checked
//!   form; [`programs`], [`objects`]: the roles of the program model.
//!
//! What is proved: every operation returns the number that native arithmetic
//! returns and halts where it halts, whatever the modes of its operands; it
//! grows the circuit by exactly what the cost model gives; the assignment that
//! it leaves satisfies the circuit and is the only one that does; and reading
//! and parsing undo writing.

pub mod arithmetic;
pub mod bits;
pub mod bytes;
pub mod circuit;
pub mod cost;
pub mod decimal;
pub mod divide;
pub mod encoding;
pub mod entrypoint;
pub mod field;
pub mod halt;
pub mod integer;
pub mod ir;
pub mod literal;
pub mod mode;
pub mod multiply;
pub mod objects;
pub mod operation;
pub mod plain;
pub mod power;
pub mod programs;
pub mod registers;
pub mod syntax;
pub mod text;
