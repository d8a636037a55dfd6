//! The text of literals, operands and instructions.
//!
//! An instruction is written `<opcode> <operands...> into <destination>;`
//! with single spaces, as in `neg r0 into r1;`. A register is `r` and its
//! locator in decimal. A literal is its value, then a dot and its mode: a
//! boolean is `true` or `false`, a number is written in decimal and followed
//! by the name of its kind, as in `-1i8.private` and `1field.constant`, and a
//! string is its bytes in lowercase hexadecimal between double quotes.
//!
//! This module defines the text of every plain content, and what a text
//! parses to, and proves that the two undo each other.

use crate::cost::LiteralKind;
use crate::decimal::{
    all_digits, digits, is_digit, is_number, leading_digits, lemma_digits, lemma_number, number,
};
use crate::encoding::limb;
use crate::field::{limbs_value, modulus, AddressValue, Scalar};
use crate::halt::Opcode;
use crate::integer::IntegerType;
use crate::mode::Mode;
use crate::plain::{Plain, PlainInstruction, PlainOperand};
use crate::registers::Register;
use vstd::prelude::*;

verus! {

/// The byte of a space.
pub const SPACE: u8 = 32;

/// The byte of a dot.
pub const DOT: u8 = 46;

/// The byte of a semicolon.
pub const SEMICOLON: u8 = 59;

/// The byte of a minus sign.
pub const MINUS: u8 = 45;

/// The byte of a double quote.
pub const QUOTE: u8 = 34;

/// The byte of the letter that starts a register.
pub const LETTER_R: u8 = 114;

pub open spec fn opcode_word(opcode: Opcode) -> Seq<u8> {
    match opcode {
        Opcode::Neg => seq![110u8, 101, 103],
        Opcode::Add => seq![97u8, 100, 100],
        Opcode::Sub => seq![115u8, 117, 98],
        Opcode::Mul => seq![109u8, 117, 108],
        Opcode::Div => seq![100u8, 105, 118],
        Opcode::Pow => seq![112u8, 111, 119],
    }
}

/// The word `into`.
pub open spec fn into_word() -> Seq<u8> {
    seq![105u8, 110, 116, 111]
}

pub open spec fn mode_word(mode: Mode) -> Seq<u8> {
    match mode {
        Mode::Constant => seq![99u8, 111, 110, 115, 116, 97, 110, 116],
        Mode::Public => seq![112u8, 117, 98, 108, 105, 99],
        Mode::Private => seq![112u8, 114, 105, 118, 97, 116, 101],
    }
}

pub open spec fn type_word(ty: IntegerType) -> Seq<u8> {
    match ty {
        IntegerType::I8 => seq![105u8, 56],
        IntegerType::I16 => seq![105u8, 49, 54],
        IntegerType::I32 => seq![105u8, 51, 50],
        IntegerType::I64 => seq![105u8, 54, 52],
        IntegerType::I128 => seq![105u8, 49, 50, 56],
        IntegerType::U8 => seq![117u8, 56],
        IntegerType::U16 => seq![117u8, 49, 54],
        IntegerType::U32 => seq![117u8, 51, 50],
        IntegerType::U64 => seq![117u8, 54, 52],
        IntegerType::U128 => seq![117u8, 49, 50, 56],
    }
}

/// The name that follows a number of the given kind. Booleans and strings
/// are not numbers; their name is empty.
pub open spec fn kind_word(kind: LiteralKind) -> Seq<u8> {
    match kind {
        LiteralKind::Field => seq![102u8, 105, 101, 108, 100],
        LiteralKind::Group => seq![103u8, 114, 111, 117, 112],
        LiteralKind::Scalar => seq![115u8, 99, 97, 108, 97, 114],
        LiteralKind::Address => seq![97u8, 100, 100, 114, 101, 115, 115],
        LiteralKind::Integer(ty) => type_word(ty),
        _ => Seq::empty(),
    }
}

/// The word `true` or `false`.
pub open spec fn boolean_word(b: bool) -> Seq<u8> {
    if b {
        seq![116u8, 114, 117, 101]
    } else {
        seq![102u8, 97, 108, 115, 101]
    }
}

pub open spec fn parse_opcode(t: Seq<u8>) -> Option<Opcode> {
    if t == opcode_word(Opcode::Neg) {
        Some(Opcode::Neg)
    } else if t == opcode_word(Opcode::Add) {
        Some(Opcode::Add)
    } else if t == opcode_word(Opcode::Sub) {
        Some(Opcode::Sub)
    } else if t == opcode_word(Opcode::Mul) {
        Some(Opcode::Mul)
    } else if t == opcode_word(Opcode::Div) {
        Some(Opcode::Div)
    } else if t == opcode_word(Opcode::Pow) {
        Some(Opcode::Pow)
    } else {
        None
    }
}

pub open spec fn parse_mode(t: Seq<u8>) -> Option<Mode> {
    if t == mode_word(Mode::Constant) {
        Some(Mode::Constant)
    } else if t == mode_word(Mode::Public) {
        Some(Mode::Public)
    } else if t == mode_word(Mode::Private) {
        Some(Mode::Private)
    } else {
        None
    }
}

pub open spec fn parse_type(t: Seq<u8>) -> Option<IntegerType> {
    if t == type_word(IntegerType::I8) {
        Some(IntegerType::I8)
    } else if t == type_word(IntegerType::I16) {
        Some(IntegerType::I16)
    } else if t == type_word(IntegerType::I32) {
        Some(IntegerType::I32)
    } else if t == type_word(IntegerType::I64) {
        Some(IntegerType::I64)
    } else if t == type_word(IntegerType::I128) {
        Some(IntegerType::I128)
    } else if t == type_word(IntegerType::U8) {
        Some(IntegerType::U8)
    } else if t == type_word(IntegerType::U16) {
        Some(IntegerType::U16)
    } else if t == type_word(IntegerType::U32) {
        Some(IntegerType::U32)
    } else if t == type_word(IntegerType::U64) {
        Some(IntegerType::U64)
    } else if t == type_word(IntegerType::U128) {
        Some(IntegerType::U128)
    } else {
        None
    }
}

/// The kind of number that a name stands for.
pub open spec fn parse_kind(t: Seq<u8>) -> Option<LiteralKind> {
    if t == kind_word(LiteralKind::Field) {
        Some(LiteralKind::Field)
    } else if t == kind_word(LiteralKind::Group) {
        Some(LiteralKind::Group)
    } else if t == kind_word(LiteralKind::Scalar) {
        Some(LiteralKind::Scalar)
    } else if t == kind_word(LiteralKind::Address) {
        Some(LiteralKind::Address)
    } else {
        match parse_type(t) {
            Some(ty) => Some(LiteralKind::Integer(ty)),
            None => None,
        }
    }
}

/// The character of a hexadecimal digit.
pub open spec fn hex_digit(n: nat) -> u8 {
    if n < 10 {
        (48 + n) as u8
    } else {
        (87 + n) as u8
    }
}

/// Whether a byte is the character of a lowercase hexadecimal digit.
pub open spec fn is_hex_digit(c: u8) -> bool {
    48 <= c <= 57 || 97 <= c <= 102
}

/// The number of a hexadecimal digit.
pub open spec fn hex_value(c: u8) -> nat {
    if c <= 57 {
        (c - 48) as nat
    } else {
        (c - 87) as nat
    }
}

/// The bytes in lowercase hexadecimal, two digits each.
pub open spec fn hex(bytes: Seq<u8>) -> Seq<u8>
    decreases bytes.len(),
{
    if bytes.len() == 0 {
        Seq::empty()
    } else {
        hex(bytes.drop_last()).push(hex_digit(bytes.last() as nat / 16)).push(
            hex_digit(bytes.last() as nat % 16),
        )
    }
}

/// The bytes that hexadecimal text stands for.
pub open spec fn unhex(text: Seq<u8>) -> Seq<u8>
    decreases text.len(),
{
    if text.len() < 2 {
        Seq::empty()
    } else {
        unhex(text.take(text.len() - 2)).push(
            (16 * hex_value(text[text.len() - 2]) + hex_value(text[text.len() - 1])) as u8,
        )
    }
}

/// Whether the text is hexadecimal text of whole bytes.
pub open spec fn is_hex(text: Seq<u8>) -> bool {
    &&& text.len() % 2 == 0
    &&& forall|i: int| 0 <= i < text.len() ==> is_hex_digit(#[trigger] text[i])
}

/// The number that a plain numeric literal shows, and whether it shows a
/// minus sign.
pub open spec fn shown(p: Plain) -> (bool, nat) {
    match p {
        Plain::Field(v, _) => (false, v as nat),
        Plain::Group(v, _) => (false, v as nat),
        Plain::Integer(_, v, _) => if v < 0 {
            (true, (-v) as nat)
        } else {
            (false, v as nat)
        },
        Plain::Scalar(s, _) => (false, limbs_value(s.high, s.low) as nat),
        Plain::Address(a, _) => (false, limbs_value(a.high, a.low) as nat),
        _ => (false, 0),
    }
}

/// The text of the value of a literal.
pub open spec fn value_text(p: Plain) -> Seq<u8> {
    match p {
        Plain::Boolean(b, _) => boolean_word(b),
        Plain::String(s, _) => seq![QUOTE] + hex(s) + seq![QUOTE],
        _ => (if shown(p).0 {
            seq![MINUS]
        } else {
            Seq::empty()
        }) + digits(shown(p).1) + kind_word(p.kind()),
    }
}

/// The text of a literal.
pub open spec fn literal_text(p: Plain) -> Seq<u8> {
    value_text(p) + seq![DOT] + mode_word(p.mode())
}

/// The text of a register.
pub open spec fn register_text(r: Register) -> Seq<u8> {
    seq![LETTER_R] + digits(r.locator as nat)
}

/// The text of an operand.
pub open spec fn operand_text(o: PlainOperand) -> Seq<u8> {
    match o {
        PlainOperand::Register(r) => register_text(r),
        PlainOperand::Literal(p) => literal_text(p),
    }
}

/// The text of the operands and the destination of an instruction.
pub open spec fn operation_text(i: PlainInstruction) -> Seq<u8> {
    let tail = into_word() + seq![SPACE] + register_text(i.destination) + seq![SEMICOLON];
    if i.operands.len() == 1 {
        operand_text(i.operands[0]) + seq![SPACE] + tail
    } else {
        operand_text(i.operands[0]) + seq![SPACE] + (operand_text(i.operands[1]) + seq![SPACE]
            + tail)
    }
}

/// The text of an instruction.
pub open spec fn instruction_text(i: PlainInstruction) -> Seq<u8> {
    opcode_word(i.opcode) + seq![SPACE] + operation_text(i)
}

/// The position of the first byte `c` in the text, or the length of the text
/// if there is none.
pub open spec fn find(text: Seq<u8>, c: u8) -> int
    decreases text.len(),
{
    if text.len() == 0 {
        0
    } else if text[0] == c {
        0
    } else {
        1 + find(text.drop_first(), c)
    }
}

/// Whether the byte `c` does not occur in the text.
pub open spec fn without(text: Seq<u8>, c: u8) -> bool {
    forall|i: int| 0 <= i < text.len() ==> #[trigger] text[i] != c
}

/// The text before the first byte `c` and the text after it, if there is one.
pub open spec fn cut(text: Seq<u8>, c: u8) -> Option<(Seq<u8>, Seq<u8>)> {
    let at = find(text, c);
    if at < text.len() {
        Some((text.take(at), text.skip(at + 1)))
    } else {
        None
    }
}

/// The number of digits that the text starts with.
pub open spec fn digit_run(text: Seq<u8>) -> int {
    leading_digits(text)
}

/// Two to the power 256: the bound of a number of two limbs.
pub open spec fn wide() -> int {
    0x1_0000_0000_0000_0000_0000_0000_0000_0000_0000_0000_0000_0000_0000_0000_0000_0000int
}

/// What a number with a sign and the name of a kind stands for, in the given
/// mode.
pub open spec fn parse_number(negative: bool, n: nat, kind: LiteralKind, mode: Mode) -> Option<
    Plain,
> {
    match kind {
        LiteralKind::Integer(ty) => {
            let v = if negative {
                -(n as int)
            } else {
                n as int
            };
            if (negative ==> n > 0) && ty.contains(v) {
                Some(Plain::Integer(ty, v, mode))
            } else {
                None
            }
        },
        LiteralKind::Field => if !negative && n < modulus() {
            Some(Plain::Field(n as int, mode))
        } else {
            None
        },
        LiteralKind::Group => if !negative && n < modulus() {
            Some(Plain::Group(n as int, mode))
        } else {
            None
        },
        LiteralKind::Scalar => if !negative && n < wide() {
            Some(
                Plain::Scalar(
                    Scalar { high: (n as int / limb()) as u128, low: (n as int % limb()) as u128 },
                    mode,
                ),
            )
        } else {
            None
        },
        LiteralKind::Address => if !negative && n < wide() {
            Some(
                Plain::Address(
                    AddressValue {
                        high: (n as int / limb()) as u128,
                        low: (n as int % limb()) as u128,
                    },
                    mode,
                ),
            )
        } else {
            None
        },
        _ => None,
    }
}

/// What the text of a value stands for, in the given mode.
pub open spec fn parse_value(t: Seq<u8>, mode: Mode) -> Option<Plain> {
    if t == boolean_word(true) {
        Some(Plain::Boolean(true, mode))
    } else if t == boolean_word(false) {
        Some(Plain::Boolean(false, mode))
    } else if t.len() >= 2 && t[0] == QUOTE {
        if t.last() == QUOTE && is_hex(t.subrange(1, t.len() - 1)) {
            Some(Plain::String(unhex(t.subrange(1, t.len() - 1)), mode))
        } else {
            None
        }
    } else {
        let negative = t.len() > 0 && t[0] == MINUS;
        let body = if negative {
            t.skip(1)
        } else {
            t
        };
        let run = digit_run(body);
        if is_number(body.take(run)) {
            match parse_kind(body.skip(run)) {
                Some(kind) => parse_number(negative, number(body.take(run)), kind, mode),
                None => None,
            }
        } else {
            None
        }
    }
}

/// What the text of a literal stands for.
pub open spec fn parse_literal(t: Seq<u8>) -> Option<Plain> {
    match cut(t, DOT) {
        Some((value, mode)) => match parse_mode(mode) {
            Some(mode) => parse_value(value, mode),
            None => None,
        },
        None => None,
    }
}

/// What the text of a register stands for.
pub open spec fn parse_register(t: Seq<u8>) -> Option<Register> {
    if t.len() >= 1 && t[0] == LETTER_R && is_number(t.skip(1)) && number(t.skip(1)) <= u64::MAX {
        Some(Register { locator: number(t.skip(1)) as u64 })
    } else {
        None
    }
}

/// What the text of an operand stands for.
pub open spec fn parse_operand(t: Seq<u8>) -> Option<PlainOperand> {
    if t.len() >= 1 && t[0] == LETTER_R {
        match parse_register(t) {
            Some(r) => Some(PlainOperand::Register(r)),
            None => None,
        }
    } else {
        match parse_literal(t) {
            Some(p) => Some(PlainOperand::Literal(p)),
            None => None,
        }
    }
}

/// What the end of an instruction stands for: `into`, a space, the
/// destination and a semicolon.
pub open spec fn parse_tail(t: Seq<u8>) -> Option<Register> {
    match cut(t, SPACE) {
        Some((word, rest)) => if word == into_word() && rest.len() >= 1 && rest.last()
            == SEMICOLON {
            parse_register(rest.drop_last())
        } else {
            None
        },
        None => None,
    }
}

/// What the text of the operands and the destination of an instruction of
/// the given opcode stands for.
pub open spec fn parse_operation(t: Seq<u8>, opcode: Opcode) -> Option<PlainInstruction> {
    match cut(t, SPACE) {
        None => None,
        Some((first, rest)) => match parse_operand(first) {
            None => None,
            Some(first) => if opcode.spec_arity() == 1 {
                match parse_tail(rest) {
                    Some(destination) => Some(
                        PlainInstruction { opcode, operands: seq![first], destination },
                    ),
                    None => None,
                }
            } else {
                match cut(rest, SPACE) {
                    None => None,
                    Some((second, rest)) => match parse_operand(second) {
                        None => None,
                        Some(second) => match parse_tail(rest) {
                            Some(destination) => Some(
                                PlainInstruction {
                                    opcode,
                                    operands: seq![first, second],
                                    destination,
                                },
                            ),
                            None => None,
                        },
                    },
                }
            },
        },
    }
}

/// What the text of an instruction stands for.
pub open spec fn parse_instruction(t: Seq<u8>) -> Option<PlainInstruction> {
    match cut(t, SPACE) {
        Some((word, rest)) => match parse_opcode(word) {
            Some(opcode) => parse_operation(rest, opcode),
            None => None,
        },
        None => None,
    }
}

/// Where the first byte `c` is.
pub proof fn lemma_find(text: Seq<u8>, c: u8)
    ensures
        0 <= find(text, c) <= text.len(),
        find(text, c) < text.len() ==> text[find(text, c)] == c,
        without(text.take(find(text, c)), c),
    decreases text.len(),
{
    if text.len() > 0 && text[0] != c {
        let rest = text.drop_first();
        lemma_find(rest, c);
        let at = find(text, c);
        assert forall|i: int| 0 <= i < text.take(at).len() implies #[trigger] text.take(at)[i]
            != c by {
            if i > 0 {
                assert(rest.take(at - 1)[i - 1] == text.take(at)[i]);
            }
        }
    }
}

/// A text without the byte `c`, followed by `c`, is cut there.
pub proof fn lemma_cut_first(head: Seq<u8>, c: u8, rest: Seq<u8>)
    requires
        without(head, c),
    ensures
        find(head + seq![c] + rest, c) == head.len(),
        cut(head + seq![c] + rest, c) == Some((head, rest)),
    decreases head.len(),
{
    let text = head + seq![c] + rest;
    if head.len() > 0 {
        assert(text[0] == head[0]);
        assert(text.drop_first() =~= head.drop_first() + seq![c] + rest);
        assert forall|i: int| 0 <= i < head.drop_first().len() implies #[trigger] head.drop_first()[i]
            != c by {
            assert(head.drop_first()[i] == head[i + 1]);
        }
        lemma_cut_first(head.drop_first(), c, rest);
    } else {
        assert(text[0] == c);
    }
    assert(text.take(head.len() as int) =~= head);
    assert(text.skip(head.len() as int + 1) =~= rest);
}

/// What a text is cut into gives the text back.
pub proof fn lemma_cut(text: Seq<u8>, c: u8)
    requires
        cut(text, c) is Some,
    ensures
        text == cut(text, c)->Some_0.0 + seq![c] + cut(text, c)->Some_0.1,
        without(cut(text, c)->Some_0.0, c),
{
    lemma_find(text, c);
    let at = find(text, c);
    assert(text =~= text.take(at) + seq![c] + text.skip(at + 1));
}

/// Where the digits at the start of a text end.
pub proof fn lemma_digit_run(text: Seq<u8>)
    ensures
        0 <= digit_run(text) <= text.len(),
        all_digits(text.take(digit_run(text))),
        digit_run(text) < text.len() ==> !is_digit(text[digit_run(text)]),
    decreases text.len(),
{
    if text.len() > 0 && is_digit(text[0]) {
        let rest = text.drop_first();
        lemma_digit_run(rest);
        let run = digit_run(text);
        assert forall|i: int| 0 <= i < text.take(run).len() implies is_digit(
            #[trigger] text.take(run)[i],
        ) by {
            if i > 0 {
                assert(rest.take(run - 1)[i - 1] == text.take(run)[i]);
            }
        }
    }
}

/// Digits followed by something that does not start with a digit end where
/// that starts.
pub proof fn lemma_digit_run_first(head: Seq<u8>, rest: Seq<u8>)
    requires
        all_digits(head),
        rest.len() == 0 || !is_digit(rest[0]),
    ensures
        digit_run(head + rest) == head.len(),
    decreases head.len(),
{
    let text = head + rest;
    if head.len() > 0 {
        assert(text[0] == head[0]);
        assert(is_digit(head[0]));
        assert(text.drop_first() =~= head.drop_first() + rest);
        assert forall|i: int| 0 <= i < head.drop_first().len() implies is_digit(
            #[trigger] head.drop_first()[i],
        ) by {
            assert(head.drop_first()[i] == head[i + 1]);
        }
        lemma_digit_run_first(head.drop_first(), rest);
    } else {
        assert(text =~= rest);
    }
}

/// Every word parses to what it names, no word holds a space or a dot, and
/// no name of a kind starts with a digit.
pub proof fn lemma_words()
    ensures
        forall|opcode: Opcode| #[trigger] parse_opcode(opcode_word(opcode)) == Some(opcode),
        forall|mode: Mode| #[trigger] parse_mode(mode_word(mode)) == Some(mode),
        forall|ty: IntegerType| #[trigger] parse_type(type_word(ty)) == Some(ty),
        forall|opcode: Opcode| without(#[trigger] opcode_word(opcode), SPACE),
        forall|mode: Mode| without(#[trigger] mode_word(mode), SPACE),
        without(into_word(), SPACE),
{
    assert forall|opcode: Opcode| #[trigger] parse_opcode(opcode_word(opcode)) == Some(opcode) by {
        assert(opcode_word(Opcode::Neg)[0] == 110);
        assert(opcode_word(Opcode::Add)[0] == 97);
        assert(opcode_word(Opcode::Sub)[0] == 115);
        assert(opcode_word(Opcode::Mul)[0] == 109);
        assert(opcode_word(Opcode::Div)[0] == 100);
        assert(opcode_word(Opcode::Pow)[0] == 112);
    }
    assert forall|mode: Mode| #[trigger] parse_mode(mode_word(mode)) == Some(mode) by {
        assert(mode_word(Mode::Constant).len() == 8);
        assert(mode_word(Mode::Public).len() == 6);
        assert(mode_word(Mode::Private).len() == 7);
    }
    assert forall|ty: IntegerType| #[trigger] parse_type(type_word(ty)) == Some(ty) by {
        lemma_type_words();
    }
}

/// The names of the integer types are distinct.
proof fn lemma_type_words()
    ensures
        forall|a: IntegerType, b: IntegerType|
            #[trigger] type_word(a) == #[trigger] type_word(b) ==> a == b,
{
    assert forall|a: IntegerType, b: IntegerType| #[trigger]
        type_word(a) == #[trigger] type_word(b) implies a == b by {
        let x = type_word(a);
        let y = type_word(b);
        assert(x.len() == y.len());
        assert(x[0] == y[0]);
        assert(x[1] == y[1]);
    }
}

/// The name of a kind of number parses to the kind, is not empty, starts
/// with a letter and holds no space and no dot.
pub proof fn lemma_kind_word(kind: LiteralKind)
    requires
        kind != LiteralKind::Boolean,
        kind != LiteralKind::String,
    ensures
        parse_kind(kind_word(kind)) == Some(kind),
        kind_word(kind).len() > 0,
        !is_digit(kind_word(kind)[0]),
        without(kind_word(kind), SPACE),
        without(kind_word(kind), DOT),
{
    lemma_words();
    let w = kind_word(kind);
    assert(kind_word(LiteralKind::Field).len() == 5);
    assert(kind_word(LiteralKind::Group).len() == 5);
    assert(kind_word(LiteralKind::Scalar).len() == 6);
    assert(kind_word(LiteralKind::Address).len() == 7);
    assert(kind_word(LiteralKind::Field)[0] == 102);
    assert(kind_word(LiteralKind::Group)[0] == 103);
    match kind {
        LiteralKind::Integer(ty) => {
            assert(w == type_word(ty));
            assert(w.len() <= 4);
            assert(w[0] == 105 || w[0] == 117);
            assert(parse_type(w) == Some(ty));
        },
        _ => {},
    }
}

/// What parses as the name of a kind is the name of that kind, and the kind
/// is one of numbers.
pub proof fn lemma_parse_kind(t: Seq<u8>)
    requires
        parse_kind(t) is Some,
    ensures
        kind_word(parse_kind(t)->Some_0) == t,
        parse_kind(t)->Some_0 != LiteralKind::Boolean,
        parse_kind(t)->Some_0 != LiteralKind::String,
{
}

/// Hexadecimal text is well formed and stands for the bytes.
pub proof fn lemma_hex(bytes: Seq<u8>)
    ensures
        is_hex(hex(bytes)),
        hex(bytes).len() == 2 * bytes.len(),
        unhex(hex(bytes)) == bytes,
    decreases bytes.len(),
{
    if bytes.len() > 0 {
        let head = bytes.drop_last();
        lemma_hex(head);
        let text = hex(bytes);
        let last = bytes.last() as nat;
        assert(text.take(text.len() - 2) =~= hex(head));
        assert(text[text.len() - 2] == hex_digit(last / 16));
        assert(text[text.len() - 1] == hex_digit(last % 16));
        assert(hex_value(hex_digit(last / 16)) == last / 16);
        assert(hex_value(hex_digit(last % 16)) == last % 16);
        assert(unhex(text) =~= bytes);
        assert forall|i: int| 0 <= i < text.len() implies is_hex_digit(#[trigger] text[i]) by {
            if i < text.len() - 2 {
                assert(text[i] == hex(head)[i]);
            }
        }
    } else {
        assert(unhex(hex(bytes)) =~= bytes);
    }
}

/// Well-formed hexadecimal text is the text of the bytes that it stands for.
pub proof fn lemma_unhex(text: Seq<u8>)
    requires
        is_hex(text),
    ensures
        hex(unhex(text)) == text,
    decreases text.len(),
{
    if text.len() >= 2 {
        let head = text.take(text.len() - 2);
        assert(is_hex(head)) by {
            assert forall|i: int| 0 <= i < head.len() implies is_hex_digit(#[trigger] head[i]) by {
                assert(head[i] == text[i]);
            }
        }
        lemma_unhex(head);
        let a = text[text.len() - 2];
        let b = text[text.len() - 1];
        assert(is_hex_digit(a) && is_hex_digit(b));
        let byte = (16 * hex_value(a) + hex_value(b)) as u8;
        let bytes = unhex(text);
        assert(bytes.drop_last() =~= unhex(head));
        assert(bytes.last() == byte);
        assert(byte as nat / 16 == hex_value(a));
        assert(byte as nat % 16 == hex_value(b));
        assert(hex_digit(hex_value(a)) == a);
        assert(hex_digit(hex_value(b)) == b);
        assert(hex(bytes) =~= text);
    } else {
        assert(text.len() == 0);
        assert(hex(unhex(text)) =~= text);
    }
}

/// Digits hold no byte that is not a digit.
proof fn lemma_digits_without(text: Seq<u8>, c: u8)
    requires
        all_digits(text),
        !is_digit(c),
    ensures
        without(text, c),
{
    assert forall|i: int| 0 <= i < text.len() implies #[trigger] text[i] != c by {
        assert(is_digit(text[i]));
    }
}

/// A concatenation without a byte.
proof fn lemma_without_concat(a: Seq<u8>, b: Seq<u8>, c: u8)
    requires
        without(a, c),
        without(b, c),
    ensures
        without(a + b, c),
{
    assert forall|i: int| 0 <= i < (a + b).len() implies #[trigger] (a + b)[i] != c by {
        if i < a.len() {
            assert((a + b)[i] == a[i]);
        } else {
            assert((a + b)[i] == b[i - a.len()]);
        }
    }
}

/// The text of a value is not empty, starts with a digit, a minus sign, a
/// quote or the `t` or `f` of a boolean, and holds no space and no dot.
#[verifier::rlimit(40)]
pub proof fn lemma_value_text(p: Plain)
    ensures
        value_text(p).len() > 0,
        value_text(p)[0] != LETTER_R,
        without(value_text(p), SPACE),
        without(value_text(p), DOT),
{
    let t = value_text(p);
    match p {
        Plain::Boolean(b, _) => {
            assert(t.len() >= 4);
        },
        Plain::String(s, _) => {
            lemma_hex(s);
            let h = hex(s);
            assert(t[0] == QUOTE);
            assert forall|i: int| 0 <= i < t.len() implies #[trigger] t[i] != SPACE && t[i]
                != DOT by {
                if 1 <= i < t.len() - 1 {
                    assert(t[i] == h[i - 1]);
                    assert(is_hex_digit(h[i - 1]));
                }
            }
        },
        _ => {
            let sign: Seq<u8> = if shown(p).0 {
                seq![MINUS]
            } else {
                Seq::empty()
            };
            let ds = digits(shown(p).1);
            let kw = kind_word(p.kind());
            lemma_digits(shown(p).1);
            lemma_kind_word(p.kind());
            lemma_digits_without(ds, SPACE);
            lemma_digits_without(ds, DOT);
            lemma_without_concat(sign, ds, SPACE);
            lemma_without_concat(sign, ds, DOT);
            lemma_without_concat(sign + ds, kw, SPACE);
            lemma_without_concat(sign + ds, kw, DOT);
            assert(is_digit(ds[0]));
            if shown(p).0 {
                assert(t[0] == MINUS);
            } else {
                assert(sign + ds =~= ds);
                assert(t[0] == ds[0]);
            }
        },
    }
}

/// The text of a well-formed value parses to the value.
#[verifier::rlimit(40)]
pub proof fn lemma_parse_value_complete(p: Plain)
    requires
        p.wf(),
    ensures
        parse_value(value_text(p), p.mode()) == Some(p),
{
    let t = value_text(p);
    let mode = p.mode();
    match p {
        Plain::Boolean(b, _) => {
            assert(boolean_word(true).len() != boolean_word(false).len());
        },
        Plain::String(s, _) => {
            lemma_hex(s);
            assert(t[0] == QUOTE);
            assert(boolean_word(true)[0] != QUOTE);
            assert(boolean_word(false)[0] != QUOTE);
            assert(t.subrange(1, t.len() - 1) =~= hex(s));
        },
        _ => {
            let negative = shown(p).0;
            let n = shown(p).1;
            let sign: Seq<u8> = if negative {
                seq![MINUS]
            } else {
                Seq::empty()
            };
            let ds = digits(n);
            let kw = kind_word(p.kind());
            lemma_digits(n);
            lemma_kind_word(p.kind());
            assert(is_digit(ds[0]));
            if negative {
                assert(t[0] == MINUS);
                assert(t.skip(1) =~= ds + kw);
            } else {
                assert(sign + ds =~= ds);
                assert(t[0] == ds[0]);
                assert(t =~= ds + kw);
            }
            assert(boolean_word(true)[0] == 116);
            assert(boolean_word(false)[0] == 102);
            let body = ds + kw;
            lemma_digit_run_first(ds, kw);
            assert(body.take(ds.len() as int) =~= ds);
            assert(body.skip(ds.len() as int) =~= kw);
            match p {
                Plain::Scalar(x, _) => {
                    assert(n == x.high * limb() + x.low);
                },
                Plain::Address(x, _) => {
                    assert(n == x.high * limb() + x.low);
                },
                _ => {},
            }
        },
    }
}

/// What parses as a value is well formed, has the given mode, and its text
/// is the text parsed.
#[verifier::rlimit(40)]
pub proof fn lemma_parse_value_sound(t: Seq<u8>, mode: Mode)
    requires
        parse_value(t, mode) is Some,
    ensures
        ({
            let p = parse_value(t, mode)->Some_0;
            &&& t.len() < 0x1_0000_0000_0000_0000 ==> p.wf()
            &&& p.mode() == mode
            &&& value_text(p) == t
        }),
{
    let p = parse_value(t, mode)->Some_0;
    if t == boolean_word(true) || t == boolean_word(false) {
    } else if t.len() >= 2 && t[0] == QUOTE {
        let inner = t.subrange(1, t.len() - 1);
        lemma_unhex(inner);
        lemma_hex(unhex(inner));
        assert(value_text(p) =~= t);
    } else {
        let negative = t.len() > 0 && t[0] == MINUS;
        let body = if negative {
            t.skip(1)
        } else {
            t
        };
        let run = digit_run(body);
        lemma_digit_run(body);
        let ds = body.take(run);
        let kw = body.skip(run);
        lemma_number(ds);
        lemma_parse_kind(kw);
        let n = number(ds);
        let kind = parse_kind(kw)->Some_0;
        assert(body =~= ds + kw);
        assert(shown(p) == (negative, n)) by {
            match kind {
                LiteralKind::Scalar | LiteralKind::Address => {
                    let high = (n as int / limb()) as u128;
                    let low = (n as int % limb()) as u128;
                    assert(n == high * limb() + low);
                },
                _ => {},
            }
        }
        if negative {
            assert(t =~= seq![MINUS] + body);
        }
        assert(value_text(p) =~= t);
    }
}

/// The text of a register parses to the register, and what parses as a
/// register has the text parsed.
pub proof fn lemma_parse_register(t: Seq<u8>)
    ensures
        forall|r: Register| t == #[trigger] register_text(r) ==> parse_register(t) == Some(r),
        parse_register(t) matches Some(r) ==> register_text(r) == t,
        forall|r: Register|
            without(#[trigger] register_text(r), SPACE) && register_text(r)[0] == LETTER_R,
{
    assert forall|r: Register| t == #[trigger] register_text(r) implies parse_register(t) == Some(
        r,
    ) by {
        lemma_digits(r.locator as nat);
        assert(t.skip(1) =~= digits(r.locator as nat));
    }
    if parse_register(t) is Some {
        lemma_number(t.skip(1));
        assert(t =~= seq![LETTER_R] + t.skip(1));
    }
    assert forall|r: Register|
        without(#[trigger] register_text(r), SPACE) && register_text(r)[0] == LETTER_R by {
        lemma_digits(r.locator as nat);
        lemma_digits_without(digits(r.locator as nat), SPACE);
        lemma_without_concat(seq![LETTER_R], digits(r.locator as nat), SPACE);
    }
}

/// The text of a well-formed literal parses to the literal.
pub proof fn lemma_parse_literal_complete(p: Plain)
    requires
        p.wf(),
    ensures
        parse_literal(literal_text(p)) == Some(p),
        without(literal_text(p), SPACE),
        literal_text(p)[0] != LETTER_R,
{
    lemma_value_text(p);
    lemma_words();
    lemma_cut_first(value_text(p), DOT, mode_word(p.mode()));
    lemma_parse_value_complete(p);
    lemma_without_concat(value_text(p), seq![DOT], SPACE);
    lemma_without_concat(value_text(p) + seq![DOT], mode_word(p.mode()), SPACE);
    assert(literal_text(p)[0] == value_text(p)[0]);
}

/// What parses as a literal is well formed, and its text is the text parsed.
pub proof fn lemma_parse_literal_sound(t: Seq<u8>)
    requires
        parse_literal(t) is Some,
    ensures
        t.len() < 0x1_0000_0000_0000_0000 ==> parse_literal(t)->Some_0.wf(),
        literal_text(parse_literal(t)->Some_0) == t,
{
    lemma_cut(t, DOT);
    let (value, word) = cut(t, DOT)->Some_0;
    let mode = parse_mode(word)->Some_0;
    lemma_parse_value_sound(value, mode);
}

/// The text of a well-formed operand parses to the operand and holds no
/// space.
pub proof fn lemma_parse_operand_complete(o: PlainOperand)
    requires
        o.wf(),
    ensures
        parse_operand(operand_text(o)) == Some(o),
        without(operand_text(o), SPACE),
{
    match o {
        PlainOperand::Register(r) => {
            lemma_parse_register(register_text(r));
        },
        PlainOperand::Literal(p) => {
            lemma_parse_literal_complete(p);
        },
    }
}

/// What parses as an operand is well formed, and its text is the text
/// parsed.
pub proof fn lemma_parse_operand_sound(t: Seq<u8>)
    requires
        parse_operand(t) is Some,
    ensures
        t.len() < 0x1_0000_0000_0000_0000 ==> parse_operand(t)->Some_0.wf(),
        operand_text(parse_operand(t)->Some_0) == t,
{
    if t.len() >= 1 && t[0] == LETTER_R {
        lemma_parse_register(t);
    } else {
        lemma_parse_literal_sound(t);
    }
}

/// The end of an instruction parses to its destination, and what parses as
/// the end of an instruction has the text parsed.
pub proof fn lemma_parse_tail(t: Seq<u8>)
    ensures
        forall|r: Register|
            t == into_word() + seq![SPACE] + #[trigger] register_text(r) + seq![SEMICOLON]
                ==> parse_tail(t) == Some(r),
        parse_tail(t) matches Some(r) ==> t == into_word() + seq![SPACE] + register_text(r)
            + seq![SEMICOLON],
{
    lemma_words();
    assert forall|r: Register|
        t == into_word() + seq![SPACE] + #[trigger] register_text(r) + seq![
            SEMICOLON,
        ] implies parse_tail(t) == Some(r) by {
        let rest = register_text(r) + seq![SEMICOLON];
        assert(t =~= into_word() + seq![SPACE] + rest);
        lemma_cut_first(into_word(), SPACE, rest);
        assert(rest.drop_last() =~= register_text(r));
        lemma_parse_register(register_text(r));
    }
    if parse_tail(t) is Some {
        lemma_cut(t, SPACE);
        let (word, rest) = cut(t, SPACE)->Some_0;
        lemma_parse_register(rest.drop_last());
        assert(rest =~= rest.drop_last() + seq![SEMICOLON]);
        let r = parse_tail(t)->Some_0;
        assert(t =~= into_word() + seq![SPACE] + register_text(r) + seq![SEMICOLON]);
    }
}

/// The text of the operands and the destination of a well-formed instruction
/// parses to them.
pub proof fn lemma_parse_operation_complete(i: PlainInstruction)
    requires
        i.wf(),
    ensures
        parse_operation(operation_text(i), i.opcode) == Some(i),
{
    let tail = into_word() + seq![SPACE] + register_text(i.destination) + seq![SEMICOLON];
    let first = i.operands[0];
    lemma_parse_operand_complete(first);
    lemma_parse_tail(tail);
    if i.operands.len() == 1 {
        lemma_cut_first(operand_text(first), SPACE, tail);
        assert(i.operands =~= seq![first]);
    } else {
        let second = i.operands[1];
        lemma_parse_operand_complete(second);
        let rest = operand_text(second) + seq![SPACE] + tail;
        lemma_cut_first(operand_text(first), SPACE, rest);
        lemma_cut_first(operand_text(second), SPACE, tail);
        assert(i.operands =~= seq![first, second]);
    }
}

/// What parses as the operands and the destination of an instruction is well
/// formed, and its text is the text parsed.
pub proof fn lemma_parse_operation_sound(t: Seq<u8>, opcode: Opcode)
    requires
        parse_operation(t, opcode) is Some,
    ensures
        ({
            let i = parse_operation(t, opcode)->Some_0;
            &&& i.opcode == opcode
            &&& i.operands.len() == opcode.spec_arity()
            &&& t.len() < 0x1_0000_0000_0000_0000 ==> i.wf()
            &&& operation_text(i) == t
        }),
{
    let i = parse_operation(t, opcode)->Some_0;
    lemma_cut(t, SPACE);
    let (first, rest) = cut(t, SPACE)->Some_0;
    lemma_parse_operand_sound(first);
    if opcode.spec_arity() == 1 {
        lemma_parse_tail(rest);
    } else {
        lemma_cut(rest, SPACE);
        let (second, last) = cut(rest, SPACE)->Some_0;
        lemma_parse_operand_sound(second);
        lemma_parse_tail(last);
    }
}

/// The text of a well-formed instruction parses to the instruction: parsing
/// undoes writing.
pub proof fn lemma_parse_instruction_complete(i: PlainInstruction)
    requires
        i.wf(),
    ensures
        parse_instruction(instruction_text(i)) == Some(i),
{
    lemma_words();
    lemma_cut_first(opcode_word(i.opcode), SPACE, operation_text(i));
    lemma_parse_operation_complete(i);
}

/// What parses as an instruction is well formed, and its text is the text
/// parsed: writing undoes parsing.
pub proof fn lemma_parse_instruction_sound(t: Seq<u8>)
    requires
        parse_instruction(t) is Some,
    ensures
        t.len() < 0x1_0000_0000_0000_0000 ==> parse_instruction(t)->Some_0.wf(),
        instruction_text(parse_instruction(t)->Some_0) == t,
{
    lemma_cut(t, SPACE);
    let (word, rest) = cut(t, SPACE)->Some_0;
    let opcode = parse_opcode(word)->Some_0;
    lemma_parse_operation_sound(rest, opcode);
}

} // verus!
