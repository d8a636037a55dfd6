//! The binary form of literals, operands and instructions.
//!
//! Everything is tagged and little-endian. A literal is the tag of its kind,
//! the byte of its mode and its value: one byte for a boolean, 32 bytes for
//! an element of a field or of the group, a scalar or an address, as many
//! bytes as the type is wide for an integer in two's complement, and eight
//! bytes of length followed by the bytes for a string. An operand is a tag and
//! a literal or a register, a register is the eight bytes of its locator, and
//! an instruction is the two bytes of its opcode, its operands in order and
//! its destination.
//!
//! Reading allocates the wires of what is read in a circuit. What is read is
//! what was written in its plain content; the wires are new.

use crate::bits::{lemma_weight_values, weight};
use crate::bytes::{
    le_bytes, le_value, lemma_le_bytes_len, lemma_le_bytes_of_value, lemma_le_value_bound,
    lemma_le_value_of_bytes, read_number, write_number,
};
use crate::circuit::{Boolean, Circuit};
use crate::cost::LiteralKind;
use crate::field::{limbs_value, modulus, AddressValue, Field, Group, Scalar};
use crate::halt::Opcode;
use crate::integer::{Integer, IntegerType, Native};
use crate::literal::{lemma_bound_extends, Literal};
use crate::mode::Mode;
use crate::operation::{BinaryOperation, Instruction, Neg};
use crate::plain::{Plain, PlainInstruction, PlainOperand};
use crate::registers::{Operand, OperandView, Register};
use vstd::prelude::*;

verus! {

/// The input is not the binary form of anything.
#[derive(Clone, Copy, Debug, PartialEq, Eq, Structural)]
pub struct Malformed {}

pub open spec fn mode_byte(mode: Mode) -> u8 {
    match mode {
        Mode::Constant => 0,
        Mode::Public => 1,
        Mode::Private => 2,
    }
}

pub open spec fn byte_mode(byte: u8) -> Option<Mode> {
    if byte == 0 {
        Some(Mode::Constant)
    } else if byte == 1 {
        Some(Mode::Public)
    } else if byte == 2 {
        Some(Mode::Private)
    } else {
        None
    }
}

pub open spec fn type_tag(ty: IntegerType) -> u8 {
    match ty {
        IntegerType::I8 => 3,
        IntegerType::I16 => 4,
        IntegerType::I32 => 5,
        IntegerType::I64 => 6,
        IntegerType::I128 => 7,
        IntegerType::U8 => 8,
        IntegerType::U16 => 9,
        IntegerType::U32 => 10,
        IntegerType::U64 => 11,
        IntegerType::U128 => 12,
    }
}

pub open spec fn kind_tag(kind: LiteralKind) -> u8 {
    match kind {
        LiteralKind::Boolean => 0,
        LiteralKind::Field => 1,
        LiteralKind::Group => 2,
        LiteralKind::Integer(ty) => type_tag(ty),
        LiteralKind::Scalar => 13,
        LiteralKind::Address => 14,
        LiteralKind::String => 15,
    }
}

pub open spec fn tag_kind(tag: u8) -> Option<LiteralKind> {
    if tag == 0 {
        Some(LiteralKind::Boolean)
    } else if tag == 1 {
        Some(LiteralKind::Field)
    } else if tag == 2 {
        Some(LiteralKind::Group)
    } else if tag == 3 {
        Some(LiteralKind::Integer(IntegerType::I8))
    } else if tag == 4 {
        Some(LiteralKind::Integer(IntegerType::I16))
    } else if tag == 5 {
        Some(LiteralKind::Integer(IntegerType::I32))
    } else if tag == 6 {
        Some(LiteralKind::Integer(IntegerType::I64))
    } else if tag == 7 {
        Some(LiteralKind::Integer(IntegerType::I128))
    } else if tag == 8 {
        Some(LiteralKind::Integer(IntegerType::U8))
    } else if tag == 9 {
        Some(LiteralKind::Integer(IntegerType::U16))
    } else if tag == 10 {
        Some(LiteralKind::Integer(IntegerType::U32))
    } else if tag == 11 {
        Some(LiteralKind::Integer(IntegerType::U64))
    } else if tag == 12 {
        Some(LiteralKind::Integer(IntegerType::U128))
    } else if tag == 13 {
        Some(LiteralKind::Scalar)
    } else if tag == 14 {
        Some(LiteralKind::Address)
    } else if tag == 15 {
        Some(LiteralKind::String)
    } else {
        None
    }
}

/// Two to the power 128: the weight of the upper limb.
pub open spec fn limb() -> int {
    0x1_0000_0000_0000_0000_0000_0000_0000_0000int
}

/// The unsigned number with the bit pattern of `v` in the type `ty`.
pub open spec fn pattern(ty: IntegerType, v: int) -> nat {
    if v < 0 {
        (v + weight(ty.spec_width() as nat)) as nat
    } else {
        v as nat
    }
}

/// The number of the type `ty` with the bit pattern of `p`.
pub open spec fn unpattern(ty: IntegerType, p: nat) -> int {
    if ty.spec_is_signed() && p >= weight((ty.spec_width() - 1) as nat) {
        p - weight(ty.spec_width() as nat)
    } else {
        p as int
    }
}

/// The 32 bytes of two limbs, lower limb first.
pub open spec fn limbs_bytes(high: u128, low: u128) -> Seq<u8> {
    le_bytes(low as nat, 16) + le_bytes(high as nat, 16)
}

/// The 32 bytes of a number below `2^256`.
pub open spec fn wide_bytes(v: int) -> Seq<u8> {
    le_bytes((v % limb()) as nat, 16) + le_bytes((v / limb()) as nat, 16)
}

/// The bytes of the value of a literal.
pub open spec fn value_bytes(p: Plain) -> Seq<u8> {
    match p {
        Plain::Boolean(b, _) => seq![if b {
            1u8
        } else {
            0u8
        }],
        Plain::Field(v, _) => wide_bytes(v),
        Plain::Group(v, _) => wide_bytes(v),
        Plain::Integer(ty, v, _) => le_bytes(pattern(ty, v), (ty.spec_width() / 8) as nat),
        Plain::Scalar(s, _) => limbs_bytes(s.high, s.low),
        Plain::Address(a, _) => limbs_bytes(a.high, a.low),
        Plain::String(s, _) => le_bytes(s.len(), 8) + s,
    }
}

/// The binary form of a literal.
pub open spec fn literal_bytes(p: Plain) -> Seq<u8> {
    seq![kind_tag(p.kind()), mode_byte(p.mode())] + value_bytes(p)
}

/// The binary form of a register.
pub open spec fn register_bytes(r: Register) -> Seq<u8> {
    le_bytes(r.locator as nat, 8)
}

/// The binary form of an operand.
pub open spec fn operand_bytes(o: PlainOperand) -> Seq<u8> {
    match o {
        PlainOperand::Literal(p) => seq![0u8] + literal_bytes(p),
        PlainOperand::Register(r) => seq![1u8] + register_bytes(r),
    }
}

/// The binary form of the operands and the destination of an instruction.
pub open spec fn operation_bytes(i: PlainInstruction) -> Seq<u8> {
    if i.operands.len() == 1 {
        operand_bytes(i.operands[0]) + register_bytes(i.destination)
    } else {
        operand_bytes(i.operands[0]) + operand_bytes(i.operands[1]) + register_bytes(
            i.destination,
        )
    }
}

/// The binary form of an instruction.
pub open spec fn instruction_bytes(i: PlainInstruction) -> Seq<u8> {
    le_bytes(i.opcode.spec_code() as nat, 2) + operation_bytes(i)
}

/// The `n` bytes of `b` from `s` on, if they are there.
pub open spec fn window(b: Seq<u8>, s: int, n: int) -> Option<Seq<u8>> {
    if 0 <= s && 0 <= n && s + n <= b.len() {
        Some(b.subrange(s, s + n))
    } else {
        None
    }
}

/// The two limbs at `s`, lower limb first.
pub open spec fn read_limbs(b: Seq<u8>, s: int) -> Option<(u128, u128)> {
    match window(b, s, 32) {
        Some(w) => Some(
            (le_value(w.subrange(16, 32)) as u128, le_value(w.subrange(0, 16)) as u128),
        ),
        None => None,
    }
}

/// The value of a literal of the given kind and mode at `s`, and where it
/// ends.
pub open spec fn read_value(b: Seq<u8>, s: int, kind: LiteralKind, mode: Mode) -> Option<
    (Plain, int),
> {
    match kind {
        LiteralKind::Boolean => match window(b, s, 1) {
            Some(w) => if w[0] <= 1 {
                Some((Plain::Boolean(w[0] == 1, mode), s + 1))
            } else {
                None
            },
            None => None,
        },
        LiteralKind::Field => match read_limbs(b, s) {
            Some((high, low)) => if limbs_value(high, low) < modulus() {
                Some((Plain::Field(limbs_value(high, low), mode), s + 32))
            } else {
                None
            },
            None => None,
        },
        LiteralKind::Group => match read_limbs(b, s) {
            Some((high, low)) => if limbs_value(high, low) < modulus() {
                Some((Plain::Group(limbs_value(high, low), mode), s + 32))
            } else {
                None
            },
            None => None,
        },
        LiteralKind::Integer(ty) => match window(b, s, (ty.spec_width() / 8) as int) {
            Some(w) => Some(
                (Plain::Integer(ty, unpattern(ty, le_value(w)), mode), s + ty.spec_width() / 8),
            ),
            None => None,
        },
        LiteralKind::Scalar => match read_limbs(b, s) {
            Some((high, low)) => Some((Plain::Scalar(Scalar { high, low }, mode), s + 32)),
            None => None,
        },
        LiteralKind::Address => match read_limbs(b, s) {
            Some((high, low)) => Some((Plain::Address(AddressValue { high, low }, mode), s + 32)),
            None => None,
        },
        LiteralKind::String => match window(b, s, 8) {
            Some(w) => match window(b, s + 8, le_value(w) as int) {
                Some(text) => Some((Plain::String(text, mode), s + 8 + le_value(w))),
                None => None,
            },
            None => None,
        },
    }
}

/// The literal at `s`, and where it ends.
pub open spec fn read_literal(b: Seq<u8>, s: int) -> Option<(Plain, int)> {
    match window(b, s, 2) {
        Some(w) => match (tag_kind(w[0]), byte_mode(w[1])) {
            (Some(kind), Some(mode)) => read_value(b, s + 2, kind, mode),
            _ => None,
        },
        None => None,
    }
}

/// The register at `s`, and where it ends.
pub open spec fn read_register(b: Seq<u8>, s: int) -> Option<(Register, int)> {
    match window(b, s, 8) {
        Some(w) => Some((Register { locator: le_value(w) as u64 }, s + 8)),
        None => None,
    }
}

/// The operand at `s`, and where it ends.
pub open spec fn read_operand(b: Seq<u8>, s: int) -> Option<(PlainOperand, int)> {
    match window(b, s, 1) {
        Some(w) => if w[0] == 0 {
            match read_literal(b, s + 1) {
                Some((p, e)) => Some((PlainOperand::Literal(p), e)),
                None => None,
            }
        } else if w[0] == 1 {
            match read_register(b, s + 1) {
                Some((r, e)) => Some((PlainOperand::Register(r), e)),
                None => None,
            }
        } else {
            None
        },
        None => None,
    }
}

/// The operands and the destination of an instruction of the given opcode at
/// `s`, and where they end.
pub open spec fn read_operation(b: Seq<u8>, s: int, opcode: Opcode) -> Option<
    (PlainInstruction, int),
> {
    match read_operand(b, s) {
        None => None,
        Some((first, e1)) => if opcode.spec_arity() == 1 {
            match read_register(b, e1) {
                None => None,
                Some((destination, e)) => Some(
                    (PlainInstruction { opcode, operands: seq![first], destination }, e),
                ),
            }
        } else {
            match read_operand(b, e1) {
                None => None,
                Some((second, e2)) => match read_register(b, e2) {
                    None => None,
                    Some((destination, e)) => Some(
                        (
                            PlainInstruction { opcode, operands: seq![first, second], destination },
                            e,
                        ),
                    ),
                },
            }
        },
    }
}

/// The instruction at `s`, and where it ends.
pub open spec fn read_instruction(b: Seq<u8>, s: int) -> Option<(PlainInstruction, int)> {
    match window(b, s, 2) {
        Some(w) => if le_value(w) < 6 {
            match Opcode::spec_from_code(le_value(w) as u32) {
                Some(opcode) => read_operation(b, s + 2, opcode),
                None => None,
            }
        } else {
            None
        },
        None => None,
    }
}

/// A number of a type and its bit pattern determine each other.
pub proof fn lemma_pattern(ty: IntegerType, v: int)
    requires
        ty.contains(v),
    ensures
        pattern(ty, v) < weight(ty.spec_width() as nat),
        unpattern(ty, pattern(ty, v)) == v,
{
    assert(weight(ty.spec_width() as nat) == 2 * weight((ty.spec_width() - 1) as nat));
}

/// A bit pattern of a type and its number determine each other.
pub proof fn lemma_unpattern(ty: IntegerType, p: nat)
    requires
        p < weight(ty.spec_width() as nat),
    ensures
        ty.contains(unpattern(ty, p)),
        pattern(ty, unpattern(ty, p)) == p,
{
    assert(weight(ty.spec_width() as nat) == 2 * weight((ty.spec_width() - 1) as nat));
}

/// The bytes of a number given by its limbs are the bytes of the limbs.
pub proof fn lemma_limbs(high: u128, low: u128)
    ensures
        wide_bytes(limbs_value(high, low)) == limbs_bytes(high, low),
        limbs_bytes(high, low).len() == 32,
{
    let v = limbs_value(high, low);
    assert(v % limb() == low as int && v / limb() == high as int) by {
        assert(v == high * limb() + low);
    }
    lemma_le_bytes_len(low as nat, 16);
    lemma_le_bytes_len(high as nat, 16);
}

/// The limbs that the 32 bytes of two limbs read as are those limbs.
proof fn lemma_limbs_round_trip(high: u128, low: u128)
    ensures
        le_value(limbs_bytes(high, low).subrange(0, 16)) == low,
        le_value(limbs_bytes(high, low).subrange(16, 32)) == high,
        limbs_bytes(high, low).len() == 32,
{
    lemma_weight_values();
    lemma_le_value_of_bytes(low as nat, 16);
    lemma_le_value_of_bytes(high as nat, 16);
    let all = limbs_bytes(high, low);
    assert(all.subrange(0, 16) =~= le_bytes(low as nat, 16));
    assert(all.subrange(16, 32) =~= le_bytes(high as nat, 16));
}

/// The 32 bytes of two limbs are determined by what they read as.
proof fn lemma_limbs_bytes(w: Seq<u8>)
    requires
        w.len() == 32,
    ensures
        le_value(w.subrange(0, 16)) < limb(),
        le_value(w.subrange(16, 32)) < limb(),
        limbs_bytes(le_value(w.subrange(16, 32)) as u128, le_value(w.subrange(0, 16)) as u128)
            == w,
{
    lemma_weight_values();
    lemma_le_value_bound(w.subrange(0, 16));
    lemma_le_value_bound(w.subrange(16, 32));
    lemma_le_bytes_of_value(w.subrange(0, 16));
    lemma_le_bytes_of_value(w.subrange(16, 32));
    assert(w.subrange(0, 16) + w.subrange(16, 32) =~= w);
}

/// Where a concatenation lies in the input, its parts lie one after the
/// other.
pub proof fn lemma_window_split(b: Seq<u8>, s: int, x: Seq<u8>, y: Seq<u8>)
    requires
        window(b, s, (x + y).len() as int) == Some(x + y),
    ensures
        window(b, s, x.len() as int) == Some(x),
        window(b, s + x.len(), y.len() as int) == Some(y),
{
    let all = b.subrange(s, s + (x + y).len());
    assert(all == x + y);
    assert(b.subrange(s, s + x.len()) =~= all.subrange(0, x.len() as int));
    assert(all.subrange(0, x.len() as int) =~= x);
    assert(b.subrange(s + x.len(), s + x.len() + y.len()) =~= all.subrange(
        x.len() as int,
        all.len() as int,
    ));
    assert(all.subrange(x.len() as int, all.len() as int) =~= y);
}

/// Where two parts lie one after the other in the input, their concatenation
/// lies there.
pub proof fn lemma_window_join(b: Seq<u8>, s: int, x: Seq<u8>, y: Seq<u8>)
    requires
        window(b, s, x.len() as int) == Some(x),
        window(b, s + x.len(), y.len() as int) == Some(y),
    ensures
        window(b, s, (x + y).len() as int) == Some(x + y),
{
    assert(b.subrange(s, s + (x + y).len()) =~= x + y);
}

/// What is read as a value is well formed, of the kind and mode asked for,
/// and its bytes are the bytes read.
#[verifier::rlimit(40)]
pub proof fn lemma_read_value_sound(b: Seq<u8>, s: int, kind: LiteralKind, mode: Mode)
    requires
        read_value(b, s, kind, mode) is Some,
    ensures
        ({
            let (p, e) = read_value(b, s, kind, mode)->Some_0;
            &&& p.wf()
            &&& p.kind() == kind
            &&& p.mode() == mode
            &&& window(b, s, e - s) == Some(value_bytes(p))
        }),
{
    let (p, e) = read_value(b, s, kind, mode)->Some_0;
    match kind {
        LiteralKind::Boolean => {
            assert(b.subrange(s, s + 1) =~= value_bytes(p));
        },
        LiteralKind::Field | LiteralKind::Group | LiteralKind::Scalar | LiteralKind::Address => {
            let w = b.subrange(s, s + 32);
            lemma_limbs_bytes(w);
            let high = le_value(w.subrange(16, 32)) as u128;
            let low = le_value(w.subrange(0, 16)) as u128;
            lemma_limbs(high, low);
        },
        LiteralKind::Integer(ty) => {
            let n = (ty.spec_width() / 8) as int;
            let w = b.subrange(s, s + n);
            lemma_le_value_bound(w);
            lemma_unpattern(ty, le_value(w));
            lemma_le_bytes_of_value(w);
        },
        LiteralKind::String => {
            let w = b.subrange(s, s + 8);
            lemma_le_value_bound(w);
            lemma_weight_values();
            lemma_le_bytes_of_value(w);
            let text = b.subrange(s + 8, s + 8 + le_value(w));
            lemma_window_join(b, s, w, text);
        },
    }
}

/// The bytes of a well-formed value read as that value.
#[verifier::rlimit(40)]
pub proof fn lemma_read_value_complete(b: Seq<u8>, s: int, p: Plain)
    requires
        p.wf(),
        window(b, s, value_bytes(p).len() as int) == Some(value_bytes(p)),
    ensures
        read_value(b, s, p.kind(), p.mode()) == Some((p, s + value_bytes(p).len())),
{
    lemma_weight_values();
    match p {
        Plain::Boolean(v, _) => {
            assert(b.subrange(s, s + 1)[0] == value_bytes(p)[0]);
        },
        Plain::Field(v, _) => {
            lemma_wide(b, s, v);
        },
        Plain::Group(v, _) => {
            lemma_wide(b, s, v);
        },
        Plain::Scalar(x, _) => {
            lemma_limbs_round_trip(x.high, x.low);
        },
        Plain::Address(x, _) => {
            lemma_limbs_round_trip(x.high, x.low);
        },
        Plain::Integer(ty, v, _) => {
            lemma_pattern(ty, v);
            lemma_le_value_of_bytes(pattern(ty, v), (ty.spec_width() / 8) as nat);
        },
        Plain::String(text, _) => {
            lemma_le_value_of_bytes(text.len(), 8);
            lemma_window_split(b, s, le_bytes(text.len(), 8), text);
        },
    }
}

proof fn lemma_wide(b: Seq<u8>, s: int, v: int)
    requires
        0 <= v < modulus(),
        window(b, s, wide_bytes(v).len() as int) == Some(wide_bytes(v)),
    ensures
        read_limbs(b, s) is Some,
        limbs_value(read_limbs(b, s)->Some_0.0, read_limbs(b, s)->Some_0.1) == v,
        wide_bytes(v).len() == 32,
{
    let high = (v / limb()) as u128;
    let low = (v % limb()) as u128;
    assert(v == high * limb() + low);
    assert(wide_bytes(v) == limbs_bytes(high, low));
    lemma_limbs_round_trip(high, low);
}

/// What is read as a literal is well formed, and its binary form is the
/// bytes read.
pub proof fn lemma_read_literal_sound(b: Seq<u8>, s: int)
    requires
        read_literal(b, s) is Some,
    ensures
        ({
            let (p, e) = read_literal(b, s)->Some_0;
            &&& p.wf()
            &&& window(b, s, e - s) == Some(literal_bytes(p))
        }),
{
    let w = b.subrange(s, s + 2);
    let kind = tag_kind(w[0])->Some_0;
    let mode = byte_mode(w[1])->Some_0;
    lemma_read_value_sound(b, s + 2, kind, mode);
    let (p, e) = read_literal(b, s)->Some_0;
    let head = seq![kind_tag(p.kind()), mode_byte(p.mode())];
    assert(w =~= head);
    lemma_window_join(b, s, head, value_bytes(p));
}

/// The binary form of a well-formed literal reads as that literal.
pub proof fn lemma_read_literal_complete(b: Seq<u8>, s: int, p: Plain)
    requires
        p.wf(),
        window(b, s, literal_bytes(p).len() as int) == Some(literal_bytes(p)),
    ensures
        read_literal(b, s) == Some((p, s + literal_bytes(p).len())),
{
    let head = seq![kind_tag(p.kind()), mode_byte(p.mode())];
    lemma_window_split(b, s, head, value_bytes(p));
    assert(b.subrange(s, s + 2)[0] == head[0]);
    assert(b.subrange(s, s + 2)[1] == head[1]);
    lemma_read_value_complete(b, s + 2, p);
}

/// A register and its binary form determine each other.
pub proof fn lemma_read_register(b: Seq<u8>, s: int)
    ensures
        read_register(b, s) matches Some((r, e)) ==> window(b, s, e - s) == Some(register_bytes(r)),
        forall|r: Register| #[trigger]
            window(b, s, register_bytes(r).len() as int) == Some(register_bytes(r))
                ==> read_register(b, s) == Some((r, s + 8)),
{
    lemma_weight_values();
    if read_register(b, s) is Some {
        let w = b.subrange(s, s + 8);
        lemma_le_value_bound(w);
        lemma_le_bytes_of_value(w);
    }
    assert forall|r: Register| #[trigger]
        window(b, s, register_bytes(r).len() as int) == Some(
            register_bytes(r),
        ) implies read_register(b, s) == Some((r, s + 8)) by {
        lemma_le_value_of_bytes(r.locator as nat, 8);
    }
}

/// What is read as an operand is well formed, and its binary form is the
/// bytes read.
pub proof fn lemma_read_operand_sound(b: Seq<u8>, s: int)
    requires
        read_operand(b, s) is Some,
    ensures
        ({
            let (o, e) = read_operand(b, s)->Some_0;
            &&& o.wf()
            &&& s <= e
            &&& window(b, s, e - s) == Some(operand_bytes(o))
        }),
{
    let w = b.subrange(s, s + 1);
    let (o, e) = read_operand(b, s)->Some_0;
    if w[0] == 0 {
        lemma_read_literal_sound(b, s + 1);
        assert(w =~= seq![0u8]);
        lemma_window_join(b, s, seq![0u8], literal_bytes(o->Literal_0));
    } else {
        lemma_read_register(b, s + 1);
        assert(w =~= seq![1u8]);
        lemma_window_join(b, s, seq![1u8], register_bytes(o->Register_0));
    }
}

/// The binary form of a well-formed operand reads as that operand.
pub proof fn lemma_read_operand_complete(b: Seq<u8>, s: int, o: PlainOperand)
    requires
        o.wf(),
        window(b, s, operand_bytes(o).len() as int) == Some(operand_bytes(o)),
    ensures
        read_operand(b, s) == Some((o, s + operand_bytes(o).len())),
{
    match o {
        PlainOperand::Literal(p) => {
            lemma_window_split(b, s, seq![0u8], literal_bytes(p));
            assert(b.subrange(s, s + 1)[0] == seq![0u8][0]);
            lemma_read_literal_complete(b, s + 1, p);
        },
        PlainOperand::Register(r) => {
            lemma_window_split(b, s, seq![1u8], register_bytes(r));
            assert(b.subrange(s, s + 1)[0] == seq![1u8][0]);
            lemma_read_register(b, s + 1);
        },
    }
}

/// What is read as the operands and destination of an instruction is well
/// formed, and its binary form is the bytes read.
pub proof fn lemma_read_operation_sound(b: Seq<u8>, s: int, opcode: Opcode)
    requires
        read_operation(b, s, opcode) is Some,
    ensures
        ({
            let (i, e) = read_operation(b, s, opcode)->Some_0;
            &&& i.wf()
            &&& i.opcode == opcode
            &&& window(b, s, e - s) == Some(operation_bytes(i))
        }),
{
    let (i, e) = read_operation(b, s, opcode)->Some_0;
    lemma_read_operand_sound(b, s);
    let (first, e1) = read_operand(b, s)->Some_0;
    if opcode.spec_arity() == 1 {
        lemma_read_register(b, e1);
        lemma_window_join(b, s, operand_bytes(first), register_bytes(i.destination));
    } else {
        lemma_read_operand_sound(b, e1);
        let (second, e2) = read_operand(b, e1)->Some_0;
        lemma_read_register(b, e2);
        lemma_window_join(b, s, operand_bytes(first), operand_bytes(second));
        lemma_window_join(
            b,
            s,
            operand_bytes(first) + operand_bytes(second),
            register_bytes(i.destination),
        );
    }
}

/// The binary form of the operands and destination of a well-formed
/// instruction reads as them.
pub proof fn lemma_read_operation_complete(b: Seq<u8>, s: int, i: PlainInstruction)
    requires
        i.wf(),
        window(b, s, operation_bytes(i).len() as int) == Some(operation_bytes(i)),
    ensures
        read_operation(b, s, i.opcode) == Some((i, s + operation_bytes(i).len())),
{
    let first = i.operands[0];
    if i.opcode.spec_arity() == 1 {
        lemma_window_split(b, s, operand_bytes(first), register_bytes(i.destination));
        lemma_read_operand_complete(b, s, first);
        lemma_read_register(b, s + operand_bytes(first).len());
        lemma_le_bytes_len(i.destination.locator as nat, 8);
        assert(i.operands =~= seq![first]);
    } else {
        let second = i.operands[1];
        let both = operand_bytes(first) + operand_bytes(second);
        lemma_window_split(b, s, both, register_bytes(i.destination));
        lemma_window_split(b, s, operand_bytes(first), operand_bytes(second));
        lemma_read_operand_complete(b, s, first);
        lemma_read_operand_complete(b, s + operand_bytes(first).len(), second);
        lemma_read_register(b, s + both.len());
        lemma_le_bytes_len(i.destination.locator as nat, 8);
        assert(i.operands =~= seq![first, second]);
    }
}

/// What is read as an instruction is well formed, and its binary form is the
/// bytes read.
pub proof fn lemma_read_instruction_sound(b: Seq<u8>, s: int)
    requires
        read_instruction(b, s) is Some,
    ensures
        ({
            let (i, e) = read_instruction(b, s)->Some_0;
            &&& i.wf()
            &&& window(b, s, e - s) == Some(instruction_bytes(i))
        }),
{
    let w = b.subrange(s, s + 2);
    let opcode = Opcode::spec_from_code(le_value(w) as u32)->Some_0;
    lemma_read_operation_sound(b, s + 2, opcode);
    let (i, e) = read_instruction(b, s)->Some_0;
    lemma_le_bytes_of_value(w);
    lemma_window_join(b, s, w, operation_bytes(i));
}

/// The binary form of a well-formed instruction reads as that instruction:
/// reading undoes writing.
pub proof fn lemma_read_instruction_complete(b: Seq<u8>, s: int, i: PlainInstruction)
    requires
        i.wf(),
        window(b, s, instruction_bytes(i).len() as int) == Some(instruction_bytes(i)),
    ensures
        read_instruction(b, s) == Some((i, s + instruction_bytes(i).len())),
{
    let code = le_bytes(i.opcode.spec_code() as nat, 2);
    lemma_weight_values();
    lemma_le_value_of_bytes(i.opcode.spec_code() as nat, 2);
    lemma_window_split(b, s, code, operation_bytes(i));
    lemma_read_operation_complete(b, s + 2, i);
}

fn mode_to_byte(mode: Mode) -> (byte: u8)
    ensures
        byte == mode_byte(mode),
{
    match mode {
        Mode::Constant => 0,
        Mode::Public => 1,
        Mode::Private => 2,
    }
}

fn byte_to_mode(byte: u8) -> (mode: Option<Mode>)
    ensures
        mode == byte_mode(byte),
{
    if byte == 0 {
        Some(Mode::Constant)
    } else if byte == 1 {
        Some(Mode::Public)
    } else if byte == 2 {
        Some(Mode::Private)
    } else {
        None
    }
}

fn type_to_tag(ty: IntegerType) -> (tag: u8)
    ensures
        tag == type_tag(ty),
{
    match ty {
        IntegerType::I8 => 3,
        IntegerType::I16 => 4,
        IntegerType::I32 => 5,
        IntegerType::I64 => 6,
        IntegerType::I128 => 7,
        IntegerType::U8 => 8,
        IntegerType::U16 => 9,
        IntegerType::U32 => 10,
        IntegerType::U64 => 11,
        IntegerType::U128 => 12,
    }
}

fn tag_to_kind(tag: u8) -> (kind: Option<LiteralKind>)
    ensures
        kind == tag_kind(tag),
{
    if tag == 0 {
        Some(LiteralKind::Boolean)
    } else if tag == 1 {
        Some(LiteralKind::Field)
    } else if tag == 2 {
        Some(LiteralKind::Group)
    } else if tag == 3 {
        Some(LiteralKind::Integer(IntegerType::I8))
    } else if tag == 4 {
        Some(LiteralKind::Integer(IntegerType::I16))
    } else if tag == 5 {
        Some(LiteralKind::Integer(IntegerType::I32))
    } else if tag == 6 {
        Some(LiteralKind::Integer(IntegerType::I64))
    } else if tag == 7 {
        Some(LiteralKind::Integer(IntegerType::I128))
    } else if tag == 8 {
        Some(LiteralKind::Integer(IntegerType::U8))
    } else if tag == 9 {
        Some(LiteralKind::Integer(IntegerType::U16))
    } else if tag == 10 {
        Some(LiteralKind::Integer(IntegerType::U32))
    } else if tag == 11 {
        Some(LiteralKind::Integer(IntegerType::U64))
    } else if tag == 12 {
        Some(LiteralKind::Integer(IntegerType::U128))
    } else if tag == 13 {
        Some(LiteralKind::Scalar)
    } else if tag == 14 {
        Some(LiteralKind::Address)
    } else if tag == 15 {
        Some(LiteralKind::String)
    } else {
        None
    }
}

/// The bit pattern of a native value of the type `ty`.
fn to_pattern(ty: IntegerType, native: Native) -> (p: u128)
    requires
        native.spec_fits(ty),
    ensures
        p == pattern(ty, native.as_int()),
{
    proof {
        lemma_weight_values();
        assert(weight(ty.spec_width() as nat) == 2 * weight((ty.spec_width() - 1) as nat));
    }
    match native {
        Native::Unsigned(v) => v,
        Native::Signed(v) => if v >= 0 {
            v as u128
        } else {
            let half: u128 = (ty.greatest_signed() as u128) + 1;
            ((v - ty.least_signed()) as u128) + half
        },
    }
}

/// The native value of the type `ty` with the given bit pattern.
fn from_pattern(ty: IntegerType, p: u128) -> (native: Native)
    requires
        p < weight(ty.spec_width() as nat),
    ensures
        native.spec_fits(ty),
        native.as_int() == unpattern(ty, p as nat),
{
    proof {
        lemma_weight_values();
        assert(weight(ty.spec_width() as nat) == 2 * weight((ty.spec_width() - 1) as nat));
    }
    if ty.is_signed() {
        let half: u128 = (ty.greatest_signed() as u128) + 1;
        if p >= half {
            Native::Signed(((p - half) as i128) + ty.least_signed())
        } else {
            Native::Signed(p as i128)
        }
    } else {
        Native::Unsigned(p)
    }
}

/// Appends the 32 bytes of two limbs, lower limb first.
fn write_limbs(out: &mut Vec<u8>, high: u128, low: u128)
    ensures
        final(out)@ == old(out)@ + limbs_bytes(high, low),
{
    let ghost start = out@;
    write_number(out, low, 16);
    write_number(out, high, 16);
    assert(out@ =~= start + limbs_bytes(high, low));
}

/// Reads two limbs at `start`, lower limb first.
fn read_two_limbs(bytes: &Vec<u8>, start: usize) -> (out: Option<(u128, u128)>)
    ensures
        out == read_limbs(bytes@, start as int),
        out is Some ==> start + 32 <= usize::MAX,
{
    if bytes.len() < 32 || start > bytes.len() - 32 {
        return None;
    }
    let low = read_number(bytes, start, 16).unwrap();
    let high = read_number(bytes, start + 16, 16).unwrap();
    proof {
        let w = bytes@.subrange(start as int, start + 32);
        assert(w.subrange(0, 16) =~= bytes@.subrange(start as int, start + 16));
        assert(w.subrange(16, 32) =~= bytes@.subrange(start + 16, start + 32));
    }
    Some((high, low))
}

impl Register {
    /// Appends the binary form of the register.
    #[verifier::rlimit(40)]
    pub fn write_le(&self, out: &mut Vec<u8>)
        ensures
            final(out)@ == old(out)@ + register_bytes(*self),
    {
        write_number(out, self.locator as u128, 8);
    }

    /// Reads a register at `start`. Returns it and where it ends, or fails
    /// where the input ends too early.
    #[verifier::rlimit(40)]
    pub fn read_le(bytes: &Vec<u8>, start: usize) -> (out: Result<(Register, usize), Malformed>)
        ensures
            out is Ok <==> read_register(bytes@, start as int) is Some,
            out matches Ok((register, end)) ==> read_register(bytes@, start as int) == Some(
                (register, end as int),
            ),
    {
        match read_number(bytes, start, 8) {
            Some(locator) => {
                proof {
                    lemma_le_value_bound(bytes@.subrange(start as int, start + 8));
                    lemma_weight_values();
                }
                Ok((Register { locator: locator as u64 }, start + 8))
            },
            None => Err(Malformed {  }),
        }
    }
}

impl Literal {
    /// Appends the binary form of the literal.
    #[verifier::rlimit(40)]
    pub fn write_le(&self, out: &mut Vec<u8>)
        ensures
            final(out)@ == old(out)@ + literal_bytes(self@.plain()),
    {
        let ghost start = out@;
        let ghost plain = self@.plain();
        match self {
            Literal::Boolean(b) => {
                out.push(0);
                out.push(mode_to_byte(b.mode));
                out.push(
                    if b.value {
                        1
                    } else {
                        0
                    },
                );
                assert(out@ =~= start + literal_bytes(plain));
            },
            Literal::Field(x, mode) => {
                out.push(1);
                out.push(mode_to_byte(*mode));
                let (high, low) = x.limbs();
                proof {
                    lemma_limbs(high, low);
                }
                write_limbs(out, high, low);
                assert(out@ =~= start + literal_bytes(plain));
            },
            Literal::Group(p, mode) => {
                out.push(2);
                out.push(mode_to_byte(*mode));
                let (high, low) = p.x.limbs();
                proof {
                    lemma_limbs(high, low);
                }
                write_limbs(out, high, low);
                assert(out@ =~= start + literal_bytes(plain));
            },
            Literal::Integer(x) => {
                let ty = x.ty();
                out.push(type_to_tag(ty));
                out.push(mode_to_byte(x.mode()));
                let p = to_pattern(ty, x.to_native());
                write_number(out, p, ty.width() / 8);
                assert(out@ =~= start + literal_bytes(plain));
            },
            Literal::Scalar(x, mode) => {
                out.push(13);
                out.push(mode_to_byte(*mode));
                write_limbs(out, x.high, x.low);
                assert(out@ =~= start + literal_bytes(plain));
            },
            Literal::Address(x, mode) => {
                out.push(14);
                out.push(mode_to_byte(*mode));
                write_limbs(out, x.high, x.low);
                assert(out@ =~= start + literal_bytes(plain));
            },
            Literal::String(text, mode) => {
                out.push(15);
                out.push(mode_to_byte(*mode));
                write_number(out, text.len() as u128, 8);
                let ghost head = out@;
                let mut i: usize = 0;
                while i < text.len()
                    invariant
                        i <= text.len(),
                        out@ == head + text@.take(i as int),
                    decreases text.len() - i,
                {
                    out.push(text[i]);
                    assert(text@.take(i + 1) =~= text@.take(i as int).push(text@[i as int]));
                    assert(out@ =~= head + text@.take(i + 1));
                    i = i + 1;
                }
                assert(text@.take(i as int) =~= text@);
                assert(out@ =~= start + literal_bytes(plain));
            },
        }
    }

    /// Reads the value of a literal of the given kind and mode at `start`,
    /// allocating its wires.
    #[verifier::rlimit(40)]
    fn read_value_le(
        bytes: &Vec<u8>,
        start: usize,
        kind: LiteralKind,
        mode: Mode,
        cs: &mut Circuit,
    ) -> (out: Result<(Literal, usize), Malformed>)
        ensures
            out is Ok <==> read_value(bytes@, start as int, kind, mode) is Some,
            out matches Ok((literal, end)) ==> {
                &&& read_value(bytes@, start as int, kind, mode) == Some(
                    (literal@.plain(), end as int),
                )
                &&& final(cs)@.tally() == old(cs)@.tally().plus(literal@.plain().allocation())
                &&& literal@.bound_in(final(cs)@)
            },
            out is Err ==> final(cs)@ == old(cs)@,
            final(cs)@.extends(old(cs)@),
            old(cs)@.sound() ==> final(cs)@.sound(),
    {
        match kind {
            LiteralKind::Boolean => {
                if start >= bytes.len() || bytes[start] > 1 {
                    return Err(Malformed {  });
                }
                let wire = cs.allocate(mode, bytes[start] == 1);
                Ok((Literal::Boolean(wire), start + 1))
            },
            LiteralKind::Field => match read_two_limbs(bytes, start) {
                Some((high, low)) => match Field::from_limbs(high, low) {
                    Some(x) => Ok((Literal::Field(x, mode), start + 32)),
                    None => Err(Malformed {  }),
                },
                None => Err(Malformed {  }),
            },
            LiteralKind::Group => match read_two_limbs(bytes, start) {
                Some((high, low)) => match Field::from_limbs(high, low) {
                    Some(x) => Ok((Literal::Group(Group { x }, mode), start + 32)),
                    None => Err(Malformed {  }),
                },
                None => Err(Malformed {  }),
            },
            LiteralKind::Integer(ty) => {
                let n: usize = ty.width() / 8;
                match read_number(bytes, start, n) {
                    Some(p) => {
                        proof {
                            lemma_le_value_bound(bytes@.subrange(start as int, start + n));
                        }
                        let native = from_pattern(ty, p);
                        let x = Integer::allocate(cs, ty, mode, native).unwrap();
                        Ok((Literal::Integer(x), start + n))
                    },
                    None => Err(Malformed {  }),
                }
            },
            LiteralKind::Scalar => match read_two_limbs(bytes, start) {
                Some((high, low)) => Ok((Literal::Scalar(Scalar { high, low }, mode), start + 32)),
                None => Err(Malformed {  }),
            },
            LiteralKind::Address => match read_two_limbs(bytes, start) {
                Some((high, low)) => Ok(
                    (Literal::Address(AddressValue { high, low }, mode), start + 32),
                ),
                None => Err(Malformed {  }),
            },
            LiteralKind::String => {
                let length = match read_number(bytes, start, 8) {
                    Some(length) => length,
                    None => {
                        return Err(Malformed {  });
                    },
                };
                let from: usize = start + 8;
                if length > (bytes.len() - from) as u128 {
                    return Err(Malformed {  });
                }
                let count: usize = length as usize;
                let len: usize = bytes.len();
                let mut text: Vec<u8> = Vec::new();
                let mut i: usize = 0;
                while i < count
                    invariant
                        i <= count,
                        from + count <= len,
                        len == bytes@.len(),
                        text@ == bytes@.subrange(from as int, from + i),
                    decreases count - i,
                {
                    text.push(bytes[from + i]);
                    assert(bytes@.subrange(from as int, from + i + 1) =~= bytes@.subrange(
                        from as int,
                        from + i,
                    ).push(bytes@[from + i]));
                    i = i + 1;
                }
                Ok((Literal::String(text, mode), from + count))
            },
        }
    }

    /// Reads a literal at `start`, allocating its wires in `cs`. Returns it
    /// and where it ends, or fails where the input is not the binary form of
    /// a literal.
    #[verifier::rlimit(40)]
    pub fn read_le(bytes: &Vec<u8>, start: usize, cs: &mut Circuit) -> (out: Result<
        (Literal, usize),
        Malformed,
    >)
        ensures
            out is Ok <==> read_literal(bytes@, start as int) is Some,
            out matches Ok((literal, end)) ==> {
                &&& read_literal(bytes@, start as int) == Some((literal@.plain(), end as int))
                &&& final(cs)@.tally() == old(cs)@.tally().plus(literal@.plain().allocation())
                &&& literal@.bound_in(final(cs)@)
            },
            out is Err ==> final(cs)@ == old(cs)@,
            final(cs)@.extends(old(cs)@),
            old(cs)@.sound() ==> final(cs)@.sound(),
    {
        if bytes.len() < 2 || start > bytes.len() - 2 {
            return Err(Malformed {  });
        }
        match (tag_to_kind(bytes[start]), byte_to_mode(bytes[start + 1])) {
            (Some(kind), Some(mode)) => Literal::read_value_le(bytes, start + 2, kind, mode, cs),
            _ => Err(Malformed {  }),
        }
    }
}

impl Operand {
    /// Appends the binary form of the operand.
    #[verifier::rlimit(40)]
    pub fn write_le(&self, out: &mut Vec<u8>)
        ensures
            final(out)@ == old(out)@ + operand_bytes(self@.plain()),
    {
        let ghost start = out@;
        match self {
            Operand::Literal(literal) => {
                out.push(0);
                literal.write_le(out);
            },
            Operand::Register(register) => {
                out.push(1);
                register.write_le(out);
            },
        }
        assert(out@ =~= start + operand_bytes(self@.plain()));
    }

    /// Reads an operand at `start`, allocating the wires of a literal in
    /// `cs`. Returns it and where it ends, or fails where the input is not
    /// the binary form of an operand.
    #[verifier::rlimit(40)]
    pub fn read_le(bytes: &Vec<u8>, start: usize, cs: &mut Circuit) -> (out: Result<
        (Operand, usize),
        Malformed,
    >)
        ensures
            out is Ok <==> read_operand(bytes@, start as int) is Some,
            out matches Ok((operand, end)) ==> {
                &&& read_operand(bytes@, start as int) == Some((operand@.plain(), end as int))
                &&& final(cs)@.tally() == old(cs)@.tally().plus(operand@.plain().allocation())
                &&& operand@.bound_in(final(cs)@)
            },
            out is Err ==> final(cs)@ == old(cs)@,
            final(cs)@.extends(old(cs)@),
            old(cs)@.sound() ==> final(cs)@.sound(),
    {
        if start >= bytes.len() {
            return Err(Malformed {  });
        }
        let tag = bytes[start];
        if tag == 0 {
            match Literal::read_le(bytes, start + 1, cs) {
                Ok((literal, end)) => Ok((Operand::Literal(literal), end)),
                Err(error) => Err(error),
            }
        } else if tag == 1 {
            match Register::read_le(bytes, start + 1) {
                Ok((register, end)) => Ok((Operand::Register(register), end)),
                Err(error) => Err(error),
            }
        } else {
            Err(Malformed {  })
        }
    }
}

impl Neg {
    /// Appends the binary form of the operation: its operand, then its
    /// destination.
    #[verifier::rlimit(40)]
    pub fn write_le(&self, out: &mut Vec<u8>)
        ensures
            final(out)@ == old(out)@ + operation_bytes(self@.plain()),
    {
        let ghost start = out@;
        let operands = self.operands();
        operands[0].write_le(out);
        self.destination().write_le(out);
        proof {
            let plain = self@.plain();
            assert(plain.operands[0] == operands@[0]@.plain());
            assert(out@ =~= start + operation_bytes(plain));
        }
    }

    /// Reads a negation at `start`: its operand, then its destination. The
    /// wires of a literal operand are allocated in `cs`. Returns the
    /// operation and where it ends, or fails where the input is not the
    /// binary form of one.
    #[verifier::rlimit(40)]
    pub fn read_le(bytes: &Vec<u8>, start: usize, cs: &mut Circuit) -> (out: Result<
        (Neg, usize),
        Malformed,
    >)
        ensures
            out is Ok <==> read_operation(bytes@, start as int, Opcode::Neg) is Some,
            out matches Ok((neg, end)) ==> {
                &&& read_operation(bytes@, start as int, Opcode::Neg) == Some(
                    (neg@.plain(), end as int),
                )
                &&& final(cs)@.tally() == old(cs)@.tally().plus(neg@.plain().allocation())
                &&& neg@.bound_in(final(cs)@)
            },
            final(cs)@.extends(old(cs)@),
            old(cs)@.sound() ==> final(cs)@.sound(),
    {
        let (first, middle) = match Operand::read_le(bytes, start, cs) {
            Ok(found) => found,
            Err(error) => {
                return Err(error);
            },
        };
        let (destination, end) = match Register::read_le(bytes, middle) {
            Ok(found) => found,
            Err(error) => {
                return Err(error);
            },
        };
        let ghost plain = first@.plain();
        let neg = Neg::new(first, destination);
        proof {
            assert(neg@.plain().operands =~= seq![plain]);
        }
        Ok((neg, end))
    }
}

impl Instruction {
    /// Appends the binary form of the instruction: the two bytes of its
    /// opcode, its operands in order, and its destination.
    #[verifier::rlimit(40)]
    pub fn write_le(&self, out: &mut Vec<u8>)
        ensures
            final(out)@ == old(out)@ + instruction_bytes(self@.plain()),
    {
        let ghost start = out@;
        let ghost plain = self@.plain();
        write_number(out, self.opcode().code() as u128, 2);
        let ghost head = out@;
        let operands = self.operands();
        operands[0].write_le(out);
        if operands.len() == 2 {
            operands[1].write_le(out);
        }
        self.destination().write_le(out);
        proof {
            assert(plain.operands[0] == operands@[0]@.plain());
            if operands@.len() == 2 {
                assert(plain.operands[1] == operands@[1]@.plain());
            }
            assert(out@ =~= head + operation_bytes(plain));
            assert(out@ =~= start + instruction_bytes(plain));
        }
    }

    /// Reads an instruction at `start`: the two bytes of its opcode, its
    /// operands in order, and its destination. The wires of literal operands
    /// are allocated in `cs`. Returns the instruction and where it ends, or
    /// fails where the input is not the binary form of one.
    #[verifier::rlimit(40)]
    pub fn read_le(bytes: &Vec<u8>, start: usize, cs: &mut Circuit) -> (out: Result<
        (Instruction, usize),
        Malformed,
    >)
        ensures
            out is Ok <==> read_instruction(bytes@, start as int) is Some,
            out matches Ok((instruction, end)) ==> {
                &&& read_instruction(bytes@, start as int) == Some(
                    (instruction@.plain(), end as int),
                )
                &&& final(cs)@.tally() == old(cs)@.tally().plus(
                    instruction@.plain().allocation(),
                )
                &&& instruction@.bound_in(final(cs)@)
            },
            final(cs)@.extends(old(cs)@),
            old(cs)@.sound() ==> final(cs)@.sound(),
    {
        let code = match read_number(bytes, start, 2) {
            Some(code) => code,
            None => {
                return Err(Malformed {  });
            },
        };
        if code >= 6 {
            return Err(Malformed {  });
        }
        let opcode = match Opcode::from_code(code as u32) {
            Some(opcode) => opcode,
            None => {
                return Err(Malformed {  });
            },
        };
        let from: usize = start + 2;
        let (first, middle) = match Operand::read_le(bytes, from, cs) {
            Ok(found) => found,
            Err(error) => {
                return Err(error);
            },
        };
        let ghost first_plain = first@.plain();
        let ghost middle_state = cs@;
        if opcode.arity() == 1 {
            let (destination, end) = match Register::read_le(bytes, middle) {
                Ok(found) => found,
                Err(error) => {
                    return Err(error);
                },
            };
            let instruction = Instruction::Neg(Neg::new(first, destination));
            proof {
                assert(instruction@.plain().operands =~= seq![first_plain]);
            }
            Ok((instruction, end))
        } else {
            let (second, last) = match Operand::read_le(bytes, middle, cs) {
                Ok(found) => found,
                Err(error) => {
                    return Err(error);
                },
            };
            let (destination, end) = match Register::read_le(bytes, last) {
                Ok(found) => found,
                Err(error) => {
                    return Err(error);
                },
            };
            let ghost second_plain = second@.plain();
            proof {
                match first@ {
                    OperandView::Literal(l) => {
                        lemma_bound_extends(l, middle_state, cs@);
                    },
                    OperandView::Register(_) => {},
                }
            }
            let operation = BinaryOperation::new(first, second, destination);
            let instruction = match opcode {
                Opcode::Add => Instruction::Add(operation),
                Opcode::Sub => Instruction::Sub(operation),
                Opcode::Mul => Instruction::Mul(operation),
                Opcode::Div => Instruction::Div(operation),
                _ => Instruction::Pow(operation),
            };
            proof {
                assert(instruction@.plain().operands =~= seq![first_plain, second_plain]);
            }
            Ok((instruction, end))
        }
    }
}

} // verus!
