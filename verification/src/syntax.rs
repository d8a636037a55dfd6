//! Writing and parsing the text of literals, operands and instructions.
//!
//! Parsing allocates the wires of what is parsed in a circuit. What is parsed
//! is what was written in its plain content; the wires are new.

use crate::bits::lemma_weight_values;
use crate::circuit::Circuit;
use crate::cost::LiteralKind;
use crate::decimal::{
    digit_run_end, parse_decimal, parse_wide_decimal, write_decimal, write_wide_decimal,
};
use crate::encoding::{limb, Malformed};
use crate::field::{limbs_value, AddressValue, Field, Group, Scalar};
use crate::halt::Opcode;
use crate::integer::{Integer, IntegerType, Native};
use crate::literal::{lemma_bound_extends, Literal};
use crate::multiply::lemma_extends_twice;
use crate::mode::Mode;
use crate::operation::{BinaryOperation, Instruction, Neg};
use crate::registers::{Operand, OperandView, Register};
use crate::text::{
    boolean_word, digit_run, find, hex, hex_digit, hex_value, instruction_text, into_word,
    is_hex, is_hex_digit, kind_word, literal_text, mode_word, opcode_word,
    operand_text, operation_text, parse_instruction, parse_kind, parse_literal, parse_mode,
    parse_opcode, parse_operand, parse_operation, parse_register, parse_tail, parse_type,
    parse_value, register_text, type_word, unhex, value_text, DOT, LETTER_R, MINUS, QUOTE,
    SEMICOLON, SPACE,
};
use vstd::prelude::*;

verus! {

/// Appends a word.
fn append(out: &mut Vec<u8>, word: &Vec<u8>)
    ensures
        final(out)@ == old(out)@ + word@,
{
    let ghost start = out@;
    let mut i: usize = 0;
    while i < word.len()
        invariant
            i <= word.len(),
            out@ == start + word@.take(i as int),
        decreases word.len() - i,
    {
        out.push(word[i]);
        assert(word@.take(i + 1) =~= word@.take(i as int).push(word@[i as int]));
        assert(out@ =~= start + word@.take(i + 1));
        i = i + 1;
    }
    assert(word@.take(i as int) =~= word@);
}

/// Whether the bytes from `start` up to `end` are the word.
fn same(text: &Vec<u8>, start: usize, end: usize, word: &Vec<u8>) -> (same: bool)
    requires
        start <= end <= text@.len(),
    ensures
        same == (text@.subrange(start as int, end as int) == word@),
{
    let ghost part = text@.subrange(start as int, end as int);
    if end - start != word.len() {
        return false;
    }
    let mut i: usize = 0;
    while i < word.len()
        invariant
            i <= word.len(),
            start <= end <= text@.len(),
            end - start == word@.len(),
            part == text@.subrange(start as int, end as int),
            forall|j: int| 0 <= j < i ==> part[j] == word@[j],
        decreases word.len() - i,
    {
        if text[start + i] != word[i] {
            assert(part[i as int] != word@[i as int]);
            return false;
        }
        i = i + 1;
    }
    assert(part =~= word@);
    true
}

/// The position of the first byte `c` from `start` up to `end`, or `end` if
/// there is none.
fn find_byte(text: &Vec<u8>, start: usize, end: usize, c: u8) -> (at: usize)
    requires
        start <= end <= text@.len(),
    ensures
        start <= at <= end,
        at - start == find(text@.subrange(start as int, end as int), c),
{
    let ghost part = text@.subrange(start as int, end as int);
    let mut i: usize = start;
    assert(part.skip(0) =~= part);
    while i < end
        invariant
            start <= i <= end <= text@.len(),
            part == text@.subrange(start as int, end as int),
            find(part, c) == (i - start) + find(part.skip(i - start), c),
        decreases end - i,
    {
        let ghost rest = part.skip(i - start);
        assert(rest[0] == text@[i as int]);
        if text[i] == c {
            return i;
        }
        assert(rest.drop_first() =~= part.skip(i - start + 1));
        i = i + 1;
    }
    assert(part.skip(end - start) =~= Seq::<u8>::empty());
    end
}

fn opcode_bytes(opcode: Opcode) -> (word: Vec<u8>)
    ensures
        word@ == opcode_word(opcode),
{
    let word = match opcode {
        Opcode::Neg => vec![110u8, 101, 103],
        Opcode::Add => vec![97u8, 100, 100],
        Opcode::Sub => vec![115u8, 117, 98],
        Opcode::Mul => vec![109u8, 117, 108],
        Opcode::Div => vec![100u8, 105, 118],
        Opcode::Pow => vec![112u8, 111, 119],
    };
    assert(word@ =~= opcode_word(opcode));
    word
}

fn into_bytes() -> (word: Vec<u8>)
    ensures
        word@ == into_word(),
{
    let word = vec![105u8, 110, 116, 111];
    assert(word@ =~= into_word());
    word
}

fn mode_bytes(mode: Mode) -> (word: Vec<u8>)
    ensures
        word@ == mode_word(mode),
{
    let word = match mode {
        Mode::Constant => vec![99u8, 111, 110, 115, 116, 97, 110, 116],
        Mode::Public => vec![112u8, 117, 98, 108, 105, 99],
        Mode::Private => vec![112u8, 114, 105, 118, 97, 116, 101],
    };
    assert(word@ =~= mode_word(mode));
    word
}

fn type_bytes(ty: IntegerType) -> (word: Vec<u8>)
    ensures
        word@ == type_word(ty),
{
    let word = match ty {
        IntegerType::I8 => vec![105u8, 56],
        IntegerType::I16 => vec![105u8, 49, 54],
        IntegerType::I32 => vec![105u8, 51, 50],
        IntegerType::I64 => vec![105u8, 54, 52],
        IntegerType::I128 => vec![105u8, 49, 50, 56],
        IntegerType::U8 => vec![117u8, 56],
        IntegerType::U16 => vec![117u8, 49, 54],
        IntegerType::U32 => vec![117u8, 51, 50],
        IntegerType::U64 => vec![117u8, 54, 52],
        IntegerType::U128 => vec![117u8, 49, 50, 56],
    };
    assert(word@ =~= type_word(ty));
    word
}

fn kind_bytes(kind: LiteralKind) -> (word: Vec<u8>)
    ensures
        word@ == kind_word(kind),
{
    let word = match kind {
        LiteralKind::Field => vec![102u8, 105, 101, 108, 100],
        LiteralKind::Group => vec![103u8, 114, 111, 117, 112],
        LiteralKind::Scalar => vec![115u8, 99, 97, 108, 97, 114],
        LiteralKind::Address => vec![97u8, 100, 100, 114, 101, 115, 115],
        LiteralKind::Integer(ty) => type_bytes(ty),
        _ => Vec::new(),
    };
    assert(word@ =~= kind_word(kind));
    word
}

fn boolean_bytes(b: bool) -> (word: Vec<u8>)
    ensures
        word@ == boolean_word(b),
{
    let word = if b {
        vec![116u8, 114, 117, 101]
    } else {
        vec![102u8, 97, 108, 115, 101]
    };
    assert(word@ =~= boolean_word(b));
    word
}

fn parse_opcode_at(text: &Vec<u8>, start: usize, end: usize) -> (out: Option<Opcode>)
    requires
        start <= end <= text@.len(),
    ensures
        out == parse_opcode(text@.subrange(start as int, end as int)),
{
    if same(text, start, end, &opcode_bytes(Opcode::Neg)) {
        Some(Opcode::Neg)
    } else if same(text, start, end, &opcode_bytes(Opcode::Add)) {
        Some(Opcode::Add)
    } else if same(text, start, end, &opcode_bytes(Opcode::Sub)) {
        Some(Opcode::Sub)
    } else if same(text, start, end, &opcode_bytes(Opcode::Mul)) {
        Some(Opcode::Mul)
    } else if same(text, start, end, &opcode_bytes(Opcode::Div)) {
        Some(Opcode::Div)
    } else if same(text, start, end, &opcode_bytes(Opcode::Pow)) {
        Some(Opcode::Pow)
    } else {
        None
    }
}

fn parse_mode_at(text: &Vec<u8>, start: usize, end: usize) -> (out: Option<Mode>)
    requires
        start <= end <= text@.len(),
    ensures
        out == parse_mode(text@.subrange(start as int, end as int)),
{
    if same(text, start, end, &mode_bytes(Mode::Constant)) {
        Some(Mode::Constant)
    } else if same(text, start, end, &mode_bytes(Mode::Public)) {
        Some(Mode::Public)
    } else if same(text, start, end, &mode_bytes(Mode::Private)) {
        Some(Mode::Private)
    } else {
        None
    }
}

fn parse_type_at(text: &Vec<u8>, start: usize, end: usize) -> (out: Option<IntegerType>)
    requires
        start <= end <= text@.len(),
    ensures
        out == parse_type(text@.subrange(start as int, end as int)),
{
    if same(text, start, end, &type_bytes(IntegerType::I8)) {
        Some(IntegerType::I8)
    } else if same(text, start, end, &type_bytes(IntegerType::I16)) {
        Some(IntegerType::I16)
    } else if same(text, start, end, &type_bytes(IntegerType::I32)) {
        Some(IntegerType::I32)
    } else if same(text, start, end, &type_bytes(IntegerType::I64)) {
        Some(IntegerType::I64)
    } else if same(text, start, end, &type_bytes(IntegerType::I128)) {
        Some(IntegerType::I128)
    } else if same(text, start, end, &type_bytes(IntegerType::U8)) {
        Some(IntegerType::U8)
    } else if same(text, start, end, &type_bytes(IntegerType::U16)) {
        Some(IntegerType::U16)
    } else if same(text, start, end, &type_bytes(IntegerType::U32)) {
        Some(IntegerType::U32)
    } else if same(text, start, end, &type_bytes(IntegerType::U64)) {
        Some(IntegerType::U64)
    } else if same(text, start, end, &type_bytes(IntegerType::U128)) {
        Some(IntegerType::U128)
    } else {
        None
    }
}

fn parse_kind_at(text: &Vec<u8>, start: usize, end: usize) -> (out: Option<LiteralKind>)
    requires
        start <= end <= text@.len(),
    ensures
        out == parse_kind(text@.subrange(start as int, end as int)),
{
    if same(text, start, end, &kind_bytes(LiteralKind::Field)) {
        Some(LiteralKind::Field)
    } else if same(text, start, end, &kind_bytes(LiteralKind::Group)) {
        Some(LiteralKind::Group)
    } else if same(text, start, end, &kind_bytes(LiteralKind::Scalar)) {
        Some(LiteralKind::Scalar)
    } else if same(text, start, end, &kind_bytes(LiteralKind::Address)) {
        Some(LiteralKind::Address)
    } else {
        match parse_type_at(text, start, end) {
            Some(ty) => Some(LiteralKind::Integer(ty)),
            None => None,
        }
    }
}

fn hex_character(n: u8) -> (c: u8)
    requires
        n < 16,
    ensures
        c == hex_digit(n as nat),
{
    if n < 10 {
        48 + n
    } else {
        87 + n
    }
}

/// Appends bytes in lowercase hexadecimal.
fn write_hex(out: &mut Vec<u8>, bytes: &Vec<u8>)
    ensures
        final(out)@ == old(out)@ + hex(bytes@),
{
    let ghost start = out@;
    let mut i: usize = 0;
    proof {
        assert(bytes@.take(0) =~= Seq::<u8>::empty());
        assert(out@ =~= start + hex(bytes@.take(0)));
    }
    while i < bytes.len()
        invariant
            i <= bytes.len(),
            out@ == start + hex(bytes@.take(i as int)),
        decreases bytes.len() - i,
    {
        let byte = bytes[i];
        let ghost before = hex(bytes@.take(i as int));
        out.push(hex_character(byte / 16));
        out.push(hex_character(byte % 16));
        proof {
            let next = bytes@.take(i + 1);
            assert(next.drop_last() =~= bytes@.take(i as int));
            assert(next.last() == byte);
            assert(out@ =~= start + hex(next));
        }
        i = i + 1;
    }
    assert(bytes@.take(i as int) =~= bytes@);
}

fn hex_number(c: u8) -> (out: Option<u8>)
    ensures
        out is Some <==> is_hex_digit(c),
        out matches Some(n) ==> n == hex_value(c) && n < 16,
{
    if 48 <= c && c <= 57 {
        Some(c - 48)
    } else if 97 <= c && c <= 102 {
        Some(c - 87)
    } else {
        None
    }
}

/// Reads the bytes from `start` up to `end` as hexadecimal text.
fn parse_hex(text: &Vec<u8>, start: usize, end: usize) -> (out: Option<Vec<u8>>)
    requires
        start <= end <= text@.len(),
    ensures
        out is Some <==> is_hex(text@.subrange(start as int, end as int)),
        out matches Some(bytes) ==> bytes@ == unhex(text@.subrange(start as int, end as int)),
{
    let ghost part = text@.subrange(start as int, end as int);
    if (end - start) % 2 != 0 {
        return None;
    }
    let mut bytes: Vec<u8> = Vec::new();
    let mut i: usize = start;
    proof {
        assert(part.take(0) =~= Seq::<u8>::empty());
        assert(unhex(part.take(0)) =~= Seq::<u8>::empty());
    }
    while i < end
        invariant
            start <= i <= end <= text@.len(),
            (i - start) % 2 == 0,
            (end - start) % 2 == 0,
            part == text@.subrange(start as int, end as int),
            forall|j: int| 0 <= j < i - start ==> is_hex_digit(#[trigger] part[j]),
            bytes@ == unhex(part.take(i - start)),
        decreases end - i,
    {
        let ghost k = i - start;
        assert(part[k] == text@[i as int]);
        assert(part[k + 1] == text@[i + 1]);
        let high = match hex_number(text[i]) {
            Some(n) => n,
            None => {
                return None;
            },
        };
        let low = match hex_number(text[i + 1]) {
            Some(n) => n,
            None => {
                return None;
            },
        };
        bytes.push(16 * high + low);
        proof {
            let next = part.take(k + 2);
            assert(next.take(next.len() - 2) =~= part.take(k));
            assert(next[next.len() - 2] == part[k]);
            assert(next[next.len() - 1] == part[k + 1]);
        }
        i = i + 2;
    }
    proof {
        assert(part.take(end - start) =~= part);
    }
    Some(bytes)
}

impl Register {
    /// Appends the text of the register.
    #[verifier::rlimit(40)]
    pub fn write_text(&self, out: &mut Vec<u8>)
        ensures
            final(out)@ == old(out)@ + register_text(*self),
    {
        let ghost start = out@;
        out.push(LETTER_R);
        write_decimal(out, self.locator as u128);
        assert(out@ =~= start + register_text(*self));
    }

    /// Reads the bytes from `start` up to `end` as the text of a register.
    #[verifier::rlimit(40)]
    pub fn parse_text(text: &Vec<u8>, start: usize, end: usize) -> (out: Result<
        Register,
        Malformed,
    >)
        ensures
            out is Ok <==> start <= end <= text@.len() && parse_register(
                text@.subrange(start as int, end as int),
            ) is Some,
            out matches Ok(r) ==> parse_register(text@.subrange(start as int, end as int))
                == Some(r),
    {
        if start > end || end > text.len() {
            return Err(Malformed {  });
        }
        let ghost part = text@.subrange(start as int, end as int);
        if start == end || text[start] != LETTER_R {
            assert(part.len() == 0 || part[0] == text@[start as int]);
            return Err(Malformed {  });
        }
        assert(part[0] == text@[start as int]);
        assert(part.skip(1) =~= text@.subrange(start + 1, end as int));
        match parse_decimal(text, start + 1, end) {
            Some(v) => if v <= u64::MAX as u128 {
                Ok(Register { locator: v as u64 })
            } else {
                Err(Malformed {  })
            },
            None => Err(Malformed {  }),
        }
    }
}

/// The native value of a number with a sign, where the type `ty` holds it.
fn signed_native(ty: IntegerType, negative: bool, high: u128, low: u128) -> (out: Option<Native>)
    ensures
        ({
            let n = limbs_value(high, low);
            let v = if negative {
                -n
            } else {
                n
            };
            &&& out is Some <==> (negative ==> n > 0) && ty.contains(v)
            &&& out matches Some(native) ==> native.spec_fits(ty) && native.as_int() == v
        }),
{
    proof {
        lemma_weight_values();
    }
    if high != 0 {
        return None;
    }
    let native = if ty.is_signed() {
        if negative {
            if low == 0 || low > 0x8000_0000_0000_0000_0000_0000_0000_0000 {
                return None;
            }
            if low == 0x8000_0000_0000_0000_0000_0000_0000_0000 {
                Native::Signed(i128::MIN)
            } else {
                Native::Signed(-(low as i128))
            }
        } else {
            if low > i128::MAX as u128 {
                return None;
            }
            Native::Signed(low as i128)
        }
    } else {
        if negative {
            return None;
        }
        Native::Unsigned(low)
    };
    if native.fits(ty) {
        Some(native)
    } else {
        None
    }
}

impl Literal {
    /// Appends the text of the literal.
    #[verifier::rlimit(40)]
    pub fn write_text(&self, out: &mut Vec<u8>)
        ensures
            final(out)@ == old(out)@ + literal_text(self@.plain()),
    {
        let ghost start = out@;
        let ghost plain = self@.plain();
        let mode = match self {
            Literal::Boolean(b) => {
                append(out, &boolean_bytes(b.value));
                b.mode
            },
            Literal::Field(x, mode) => {
                let (high, low) = x.limbs();
                write_wide_decimal(out, high, low);
                append(out, &kind_bytes(LiteralKind::Field));
                assert(out@ =~= start + value_text(plain));
                *mode
            },
            Literal::Group(p, mode) => {
                let (high, low) = p.x.limbs();
                write_wide_decimal(out, high, low);
                append(out, &kind_bytes(LiteralKind::Group));
                assert(out@ =~= start + value_text(plain));
                *mode
            },
            Literal::Integer(x) => {
                let ty = x.ty();
                match x.to_native() {
                    Native::Signed(v) => {
                        if v < 0 {
                            out.push(MINUS);
                            write_decimal(out, ((-(v + 1)) as u128) + 1);
                        } else {
                            write_decimal(out, v as u128);
                        }
                    },
                    Native::Unsigned(v) => {
                        write_decimal(out, v);
                    },
                }
                append(out, &kind_bytes(LiteralKind::Integer(ty)));
                assert(out@ =~= start + value_text(plain));
                x.mode()
            },
            Literal::Scalar(x, mode) => {
                write_wide_decimal(out, x.high, x.low);
                append(out, &kind_bytes(LiteralKind::Scalar));
                assert(out@ =~= start + value_text(plain));
                *mode
            },
            Literal::Address(x, mode) => {
                write_wide_decimal(out, x.high, x.low);
                append(out, &kind_bytes(LiteralKind::Address));
                assert(out@ =~= start + value_text(plain));
                *mode
            },
            Literal::String(text, mode) => {
                out.push(QUOTE);
                write_hex(out, text);
                out.push(QUOTE);
                assert(out@ =~= start + value_text(plain));
                *mode
            },
        };
        out.push(DOT);
        append(out, &mode_bytes(mode));
        assert(out@ =~= start + literal_text(plain));
    }

    /// Reads the bytes from `start` up to `end` as the text of a number of
    /// some kind in the given mode, with or without a minus sign.
    #[verifier::rlimit(40)]
    fn parse_number_text(text: &Vec<u8>, start: usize, end: usize, mode: Mode, cs: &mut Circuit) -> (out:
        Result<Literal, Malformed>)
        requires
            start <= end <= text@.len(),
            text@.subrange(start as int, end as int) != boolean_word(true),
            text@.subrange(start as int, end as int) != boolean_word(false),
            !(end - start >= 2 && text@[start as int] == QUOTE),
        ensures
            out is Ok <==> parse_value(text@.subrange(start as int, end as int), mode) is Some,
            out matches Ok(literal) ==> {
                &&& parse_value(text@.subrange(start as int, end as int), mode) == Some(
                    literal@.plain(),
                )
                &&& final(cs)@.tally() == old(cs)@.tally().plus(literal@.plain().allocation())
                &&& literal@.bound_in(final(cs)@)
            },
            out is Err ==> final(cs)@ == old(cs)@,
            final(cs)@.extends(old(cs)@),
            old(cs)@.sound() ==> final(cs)@.sound(),
    {
        let ghost part = text@.subrange(start as int, end as int);
        let negative = start < end && text[start] == MINUS;
        let from: usize = if negative {
            start + 1
        } else {
            start
        };
        let ghost body = if negative {
            part.skip(1)
        } else {
            part
        };
        proof {
            if start < end {
                assert(part[0] == text@[start as int]);
            }
            assert(body =~= text@.subrange(from as int, end as int));
        }
        let stop = digit_run_end(text, from, end);
        proof {
            assert(digit_run(body) == stop - from);
            assert(body.take(stop - from) =~= text@.subrange(from as int, stop as int));
            assert(body.skip(stop - from) =~= text@.subrange(stop as int, end as int));
        }
        let (high, low) = match parse_wide_decimal(text, from, stop) {
            Some(limbs) => limbs,
            None => {
                proof {
                    lemma_weight_values();
                }
                return Err(Malformed {  });
            },
        };
        let kind = match parse_kind_at(text, stop, end) {
            Some(kind) => kind,
            None => {
                return Err(Malformed {  });
            },
        };
        match kind {
            LiteralKind::Integer(ty) => match signed_native(ty, negative, high, low) {
                Some(native) => {
                    let x = Integer::allocate(cs, ty, mode, native).unwrap();
                    Ok(Literal::Integer(x))
                },
                None => Err(Malformed {  }),
            },
            LiteralKind::Field => {
                if negative {
                    return Err(Malformed {  });
                }
                match Field::from_limbs(high, low) {
                    Some(x) => Ok(Literal::Field(x, mode)),
                    None => Err(Malformed {  }),
                }
            },
            LiteralKind::Group => {
                if negative {
                    return Err(Malformed {  });
                }
                match Field::from_limbs(high, low) {
                    Some(x) => Ok(Literal::Group(Group { x }, mode)),
                    None => Err(Malformed {  }),
                }
            },
            LiteralKind::Scalar => {
                if negative {
                    return Err(Malformed {  });
                }
                proof {
                    let n = limbs_value(high, low);
                    assert(n / limb() == high as int && n % limb() == low as int);
                }
                Ok(Literal::Scalar(Scalar { high, low }, mode))
            },
            LiteralKind::Address => {
                if negative {
                    return Err(Malformed {  });
                }
                proof {
                    let n = limbs_value(high, low);
                    assert(n / limb() == high as int && n % limb() == low as int);
                }
                Ok(Literal::Address(AddressValue { high, low }, mode))
            },
            _ => Err(Malformed {  }),
        }
    }

    /// Reads the bytes from `start` up to `end` as the text of a literal,
    /// allocating its wires in `cs`. Fails where they are not the text of a
    /// literal.
    #[verifier::rlimit(40)]
    pub fn parse_text(text: &Vec<u8>, start: usize, end: usize, cs: &mut Circuit) -> (out: Result<
        Literal,
        Malformed,
    >)
        ensures
            out is Ok <==> start <= end <= text@.len() && parse_literal(
                text@.subrange(start as int, end as int),
            ) is Some,
            out matches Ok(literal) ==> {
                &&& parse_literal(text@.subrange(start as int, end as int)) == Some(
                    literal@.plain(),
                )
                &&& final(cs)@.tally() == old(cs)@.tally().plus(literal@.plain().allocation())
                &&& literal@.bound_in(final(cs)@)
            },
            out is Err ==> final(cs)@ == old(cs)@,
            final(cs)@.extends(old(cs)@),
            old(cs)@.sound() ==> final(cs)@.sound(),
    {
        if start > end || end > text.len() {
            return Err(Malformed {  });
        }
        let ghost part = text@.subrange(start as int, end as int);
        let dot = find_byte(text, start, end, DOT);
        if dot == end {
            return Err(Malformed {  });
        }
        proof {
            assert(part.take(dot - start) =~= text@.subrange(start as int, dot as int));
            assert(part.skip(dot - start + 1) =~= text@.subrange(dot + 1, end as int));
        }
        let mode = match parse_mode_at(text, dot + 1, end) {
            Some(mode) => mode,
            None => {
                return Err(Malformed {  });
            },
        };
        let ghost value = text@.subrange(start as int, dot as int);
        if same(text, start, dot, &boolean_bytes(true)) {
            let wire = cs.allocate(mode, true);
            Ok(Literal::Boolean(wire))
        } else if same(text, start, dot, &boolean_bytes(false)) {
            let wire = cs.allocate(mode, false);
            Ok(Literal::Boolean(wire))
        } else if dot - start >= 2 && text[start] == QUOTE {
            assert(value[0] == text@[start as int]);
            assert(value.last() == text@[dot - 1]);
            assert(value.subrange(1, value.len() - 1) =~= text@.subrange(start + 1, dot - 1));
            if text[dot - 1] != QUOTE {
                return Err(Malformed {  });
            }
            match parse_hex(text, start + 1, dot - 1) {
                Some(bytes) => Ok(Literal::String(bytes, mode)),
                None => Err(Malformed {  }),
            }
        } else {
            proof {
                if dot - start >= 2 {
                    assert(value[0] == text@[start as int]);
                }
            }
            Literal::parse_number_text(text, start, dot, mode, cs)
        }
    }
}

impl Operand {
    /// Appends the text of the operand.
    #[verifier::rlimit(40)]
    pub fn write_text(&self, out: &mut Vec<u8>)
        ensures
            final(out)@ == old(out)@ + operand_text(self@.plain()),
    {
        match self {
            Operand::Register(register) => register.write_text(out),
            Operand::Literal(literal) => literal.write_text(out),
        }
    }

    /// Reads the bytes from `start` up to `end` as the text of an operand,
    /// allocating the wires of a literal in `cs`. Fails where they are not
    /// the text of an operand.
    #[verifier::rlimit(40)]
    pub fn parse_text(text: &Vec<u8>, start: usize, end: usize, cs: &mut Circuit) -> (out: Result<
        Operand,
        Malformed,
    >)
        ensures
            out is Ok <==> start <= end <= text@.len() && parse_operand(
                text@.subrange(start as int, end as int),
            ) is Some,
            out matches Ok(operand) ==> {
                &&& parse_operand(text@.subrange(start as int, end as int)) == Some(
                    operand@.plain(),
                )
                &&& final(cs)@.tally() == old(cs)@.tally().plus(operand@.plain().allocation())
                &&& operand@.bound_in(final(cs)@)
            },
            out is Err ==> final(cs)@ == old(cs)@,
            final(cs)@.extends(old(cs)@),
            old(cs)@.sound() ==> final(cs)@.sound(),
    {
        if start > end || end > text.len() {
            return Err(Malformed {  });
        }
        let ghost part = text@.subrange(start as int, end as int);
        if start < end && text[start] == LETTER_R {
            assert(part[0] == text@[start as int]);
            match Register::parse_text(text, start, end) {
                Ok(register) => Ok(Operand::Register(register)),
                Err(error) => Err(error),
            }
        } else {
            proof {
                if start < end {
                    assert(part[0] == text@[start as int]);
                }
            }
            match Literal::parse_text(text, start, end, cs) {
                Ok(literal) => Ok(Operand::Literal(literal)),
                Err(error) => Err(error),
            }
        }
    }
}

/// Appends the end of an instruction: `into`, the destination and a
/// semicolon.
fn write_tail(out: &mut Vec<u8>, destination: &Register)
    ensures
        final(out)@ == old(out)@ + (into_word() + seq![SPACE] + register_text(*destination) + seq![
            SEMICOLON,
        ]),
{
    let ghost start = out@;
    append(out, &into_bytes());
    out.push(SPACE);
    destination.write_text(out);
    out.push(SEMICOLON);
    assert(out@ =~= start + (into_word() + seq![SPACE] + register_text(*destination) + seq![
        SEMICOLON,
    ]));
}

/// Reads the bytes from `start` up to `end` as the end of an instruction.
fn parse_tail_at(text: &Vec<u8>, start: usize, end: usize) -> (out: Result<Register, Malformed>)
    requires
        start <= end <= text@.len(),
    ensures
        out is Ok <==> parse_tail(text@.subrange(start as int, end as int)) is Some,
        out matches Ok(r) ==> parse_tail(text@.subrange(start as int, end as int)) == Some(r),
{
    let ghost part = text@.subrange(start as int, end as int);
    let space = find_byte(text, start, end, SPACE);
    if space == end {
        return Err(Malformed {  });
    }
    proof {
        assert(part.take(space - start) =~= text@.subrange(start as int, space as int));
        assert(part.skip(space - start + 1) =~= text@.subrange(space + 1, end as int));
    }
    if !same(text, start, space, &into_bytes()) {
        return Err(Malformed {  });
    }
    let ghost rest = text@.subrange(space + 1, end as int);
    if end - (space + 1) < 1 || text[end - 1] != SEMICOLON {
        proof {
            if end - (space + 1) >= 1 {
                assert(rest.last() == text@[end - 1]);
            }
        }
        return Err(Malformed {  });
    }
    proof {
        assert(rest.last() == text@[end - 1]);
        assert(rest.drop_last() =~= text@.subrange(space + 1, end - 1));
    }
    Register::parse_text(text, space + 1, end - 1)
}

/// Reads the bytes from `start` up to `end` as an operand and the end of an
/// instruction.
#[verifier::rlimit(40)]
fn parse_unary_at(text: &Vec<u8>, start: usize, end: usize, cs: &mut Circuit) -> (out: Result<
    (Operand, Register),
    Malformed,
>)
    requires
        start <= end <= text@.len(),
    ensures
        ({
            let parsed = parse_operation(text@.subrange(start as int, end as int), Opcode::Neg);
            &&& out is Ok <==> parsed is Some
            &&& out matches Ok((first, destination)) ==> {
                &&& parsed->Some_0.operands == seq![first@.plain()]
                &&& parsed->Some_0.destination == destination
                &&& final(cs)@.tally() == old(cs)@.tally().plus(first@.plain().allocation())
                &&& first@.bound_in(final(cs)@)
            }
        }),
        final(cs)@.extends(old(cs)@),
        old(cs)@.sound() ==> final(cs)@.sound(),
{
    let ghost part = text@.subrange(start as int, end as int);
    let space = find_byte(text, start, end, SPACE);
    if space == end {
        return Err(Malformed {  });
    }
    proof {
        assert(part.take(space - start) =~= text@.subrange(start as int, space as int));
        assert(part.skip(space - start + 1) =~= text@.subrange(space + 1, end as int));
    }
    let first = match Operand::parse_text(text, start, space, cs) {
        Ok(operand) => operand,
        Err(error) => {
            return Err(error);
        },
    };
    match parse_tail_at(text, space + 1, end) {
        Ok(destination) => Ok((first, destination)),
        Err(error) => Err(error),
    }
}

/// Reads the bytes from `start` up to `end` as two operands and the end of
/// an instruction.
#[verifier::rlimit(40)]
fn parse_binary_at(text: &Vec<u8>, start: usize, end: usize, cs: &mut Circuit) -> (out: Result<
    (Operand, Operand, Register),
    Malformed,
>)
    requires
        start <= end <= text@.len(),
    ensures
        ({
            let parsed = parse_operation(text@.subrange(start as int, end as int), Opcode::Add);
            &&& out is Ok <==> parsed is Some
            &&& out matches Ok((first, second, destination)) ==> {
                &&& parsed->Some_0.operands == seq![first@.plain(), second@.plain()]
                &&& parsed->Some_0.destination == destination
                &&& final(cs)@.tally() == old(cs)@.tally().plus(
                    first@.plain().allocation().plus(second@.plain().allocation()),
                )
                &&& first@.bound_in(final(cs)@)
                &&& second@.bound_in(final(cs)@)
            }
        }),
        final(cs)@.extends(old(cs)@),
        old(cs)@.sound() ==> final(cs)@.sound(),
{
    let ghost part = text@.subrange(start as int, end as int);
    let ghost before = cs@;
    let space = find_byte(text, start, end, SPACE);
    if space == end {
        return Err(Malformed {  });
    }
    proof {
        assert(part.take(space - start) =~= text@.subrange(start as int, space as int));
        assert(part.skip(space - start + 1) =~= text@.subrange(space + 1, end as int));
    }
    let first = match Operand::parse_text(text, start, space, cs) {
        Ok(operand) => operand,
        Err(error) => {
            return Err(error);
        },
    };
    let ghost middle = cs@;
    let from: usize = space + 1;
    let ghost rest = text@.subrange(from as int, end as int);
    let next = find_byte(text, from, end, SPACE);
    if next == end {
        return Err(Malformed {  });
    }
    proof {
        assert(rest.take(next - from) =~= text@.subrange(from as int, next as int));
        assert(rest.skip(next - from + 1) =~= text@.subrange(next + 1, end as int));
    }
    let second = match Operand::parse_text(text, from, next, cs) {
        Ok(operand) => operand,
        Err(error) => {
            proof {
                lemma_extends_twice(before, middle, cs@);
            }
            return Err(error);
        },
    };
    proof {
        lemma_extends_twice(before, middle, cs@);
        match first@ {
            OperandView::Literal(l) => {
                lemma_bound_extends(l, middle, cs@);
            },
            OperandView::Register(_) => {},
        }
    }
    match parse_tail_at(text, next + 1, end) {
        Ok(destination) => Ok((first, second, destination)),
        Err(error) => Err(error),
    }
}

/// The operations read alike under every opcode of one arity.
proof fn lemma_same_arity(t: Seq<u8>, opcode: Opcode, other: Opcode)
    requires
        opcode.spec_arity() == other.spec_arity(),
    ensures
        parse_operation(t, opcode) is Some <==> parse_operation(t, other) is Some,
        parse_operation(t, opcode) is Some ==> parse_operation(t, opcode)->Some_0.operands
            == parse_operation(t, other)->Some_0.operands && parse_operation(
            t,
            opcode,
        )->Some_0.destination == parse_operation(t, other)->Some_0.destination
            && parse_operation(t, opcode)->Some_0.opcode == opcode,
{
}

/// Reads the bytes from `start` up to `end` as the operands and the
/// destination of an instruction of the given opcode.
#[verifier::rlimit(40)]
fn parse_operation_at(
    text: &Vec<u8>,
    start: usize,
    end: usize,
    opcode: Opcode,
    cs: &mut Circuit,
) -> (out: Result<Instruction, Malformed>)
    requires
        start <= end <= text@.len(),
    ensures
        out is Ok <==> parse_operation(text@.subrange(start as int, end as int), opcode) is Some,
        out matches Ok(instruction) ==> {
            &&& parse_operation(text@.subrange(start as int, end as int), opcode) == Some(
                instruction@.plain(),
            )
            &&& final(cs)@.tally() == old(cs)@.tally().plus(instruction@.plain().allocation())
            &&& instruction@.bound_in(final(cs)@)
        },
        final(cs)@.extends(old(cs)@),
        old(cs)@.sound() ==> final(cs)@.sound(),
{
    let ghost part = text@.subrange(start as int, end as int);
    if opcode.arity() == 1 {
        proof {
            lemma_same_arity(part, opcode, Opcode::Neg);
        }
        match parse_unary_at(text, start, end, cs) {
            Ok((first, destination)) => {
                let ghost first_plain = first@.plain();
                let ghost first_view = first@;
                let instruction = Instruction::Neg(Neg::new(first, destination));
                proof {
                    assert(instruction@.operands =~= seq![first_view]);
                    assert(instruction@.plain().operands =~= seq![first_plain]);
                }
                Ok(instruction)
            },
            Err(error) => Err(error),
        }
    } else {
        proof {
            lemma_same_arity(part, opcode, Opcode::Add);
        }
        match parse_binary_at(text, start, end, cs) {
            Ok((first, second, destination)) => {
                let ghost first_plain = first@.plain();
                let ghost second_plain = second@.plain();
                let ghost first_view = first@;
                let ghost second_view = second@;
                let operation = BinaryOperation::new(first, second, destination);
                let instruction = match opcode {
                    Opcode::Add => Instruction::Add(operation),
                    Opcode::Sub => Instruction::Sub(operation),
                    Opcode::Mul => Instruction::Mul(operation),
                    Opcode::Div => Instruction::Div(operation),
                    _ => Instruction::Pow(operation),
                };
                proof {
                    assert(instruction@.operands =~= seq![first_view, second_view]);
                    assert(instruction@.plain().operands =~= seq![first_plain, second_plain]);
                }
                Ok(instruction)
            },
            Err(error) => Err(error),
        }
    }
}

impl Neg {
    /// The text of the operation: its operand, `into`, its destination and a
    /// semicolon, as in `r0 into r1;`.
    pub fn to_text(&self) -> (text: Vec<u8>)
        ensures
            text@ == operation_text(self@.plain()),
    {
        let mut text: Vec<u8> = Vec::new();
        let operands = self.operands();
        operands[0].write_text(&mut text);
        text.push(SPACE);
        write_tail(&mut text, self.destination());
        proof {
            let plain = self@.plain();
            assert(plain.operands[0] == operands@[0]@.plain());
            assert(text@ =~= operation_text(plain));
        }
        text
    }

    /// Parses the text of a negation: its operand, `into`, its destination
    /// and a semicolon. The wires of a literal operand are allocated in `cs`.
    /// Fails where the text is not that of a negation.
    pub fn parse(text: &Vec<u8>, cs: &mut Circuit) -> (out: Result<Neg, Malformed>)
        ensures
            out is Ok <==> parse_operation(text@, Opcode::Neg) is Some,
            out matches Ok(neg) ==> {
                &&& parse_operation(text@, Opcode::Neg) == Some(neg@.plain())
                &&& final(cs)@.tally() == old(cs)@.tally().plus(neg@.plain().allocation())
                &&& neg@.bound_in(final(cs)@)
            },
            final(cs)@.extends(old(cs)@),
            old(cs)@.sound() ==> final(cs)@.sound(),
    {
        assert(text@.subrange(0, text@.len() as int) =~= text@);
        match parse_operation_at(text, 0, text.len(), Opcode::Neg, cs) {
            Ok(Instruction::Neg(neg)) => Ok(neg),
            Ok(_) => Err(Malformed {  }),
            Err(error) => Err(error),
        }
    }
}

impl Instruction {
    /// The text of the instruction, as in `neg r0 into r1;`.
    pub fn to_text(&self) -> (text: Vec<u8>)
        ensures
            text@ == instruction_text(self@.plain()),
    {
        let ghost plain = self@.plain();
        let mut text: Vec<u8> = Vec::new();
        append(&mut text, &opcode_bytes(self.opcode()));
        text.push(SPACE);
        let operands = self.operands();
        operands[0].write_text(&mut text);
        text.push(SPACE);
        if operands.len() == 2 {
            operands[1].write_text(&mut text);
            text.push(SPACE);
        }
        write_tail(&mut text, self.destination());
        proof {
            assert(plain.operands[0] == operands@[0]@.plain());
            if operands@.len() == 2 {
                assert(plain.operands[1] == operands@[1]@.plain());
            }
            assert(text@ =~= instruction_text(plain));
        }
        text
    }

    /// Parses the text of an instruction. The wires of literal operands are
    /// allocated in `cs`. Fails where the text is not that of an
    /// instruction.
    pub fn parse(text: &Vec<u8>, cs: &mut Circuit) -> (out: Result<Instruction, Malformed>)
        ensures
            out is Ok <==> parse_instruction(text@) is Some,
            out matches Ok(instruction) ==> {
                &&& parse_instruction(text@) == Some(instruction@.plain())
                &&& final(cs)@.tally() == old(cs)@.tally().plus(
                    instruction@.plain().allocation(),
                )
                &&& instruction@.bound_in(final(cs)@)
            },
            final(cs)@.extends(old(cs)@),
            old(cs)@.sound() ==> final(cs)@.sound(),
    {
        let end: usize = text.len();
        let space = find_byte(text, 0, end, SPACE);
        proof {
            assert(text@.subrange(0, end as int) =~= text@);
        }
        if space == end {
            return Err(Malformed {  });
        }
        proof {
            assert(text@.take(space as int) =~= text@.subrange(0, space as int));
            assert(text@.skip(space + 1) =~= text@.subrange(space + 1, end as int));
        }
        let opcode = match parse_opcode_at(text, 0, space) {
            Some(opcode) => opcode,
            None => {
                return Err(Malformed {  });
            },
        };
        parse_operation_at(text, space + 1, end, opcode, cs)
    }
}

} // verus!
