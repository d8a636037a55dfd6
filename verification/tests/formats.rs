use zkvm_core::circuit::{Circuit, CircuitCount};
use zkvm_core::encoding::Malformed;
use zkvm_core::field::{AddressValue, Field, Group, Scalar};
use zkvm_core::integer::{Integer, IntegerType, Native};
use zkvm_core::literal::Literal;
use zkvm_core::mode::Mode;
use zkvm_core::operation::{BinaryOperation, Instruction, Neg};
use zkvm_core::registers::{Operand, Register};

fn r(locator: u64) -> Register {
    Register { locator }
}

fn text(s: &str) -> Vec<u8> {
    s.as_bytes().to_vec()
}

fn parse(s: &str) -> Result<Instruction, Malformed> {
    let mut cs = Circuit::new();
    Instruction::parse(&text(s), &mut cs)
}

fn literals(cs: &mut Circuit) -> Vec<Literal> {
    let mut all = vec![
        Literal::Boolean(cs.allocate(Mode::Public, true)),
        Literal::Boolean(cs.allocate(Mode::Constant, false)),
        Literal::Field(Field::from_u128(1), Mode::Constant),
        Literal::Field(Field::from_u128(1).negate(), Mode::Private),
        Literal::Group(Group { x: Field::from_u128(2).negate() }, Mode::Public),
        Literal::Scalar(Scalar { high: u128::MAX, low: u128::MAX }, Mode::Constant),
        Literal::Scalar(Scalar { high: 0, low: 0 }, Mode::Private),
        Literal::Address(AddressValue { high: 1, low: 0 }, Mode::Constant),
        Literal::String(text("hello world; r0 into."), Mode::Constant),
        Literal::String(Vec::new(), Mode::Private),
    ];
    let signed = [
        (IntegerType::I8, i8::MIN as i128, i8::MAX as i128),
        (IntegerType::I16, i16::MIN as i128, i16::MAX as i128),
        (IntegerType::I32, i32::MIN as i128, i32::MAX as i128),
        (IntegerType::I64, i64::MIN as i128, i64::MAX as i128),
        (IntegerType::I128, i128::MIN, i128::MAX),
    ];
    for (ty, min, max) in signed {
        for value in [min, -1, 0, 1, 10, max] {
            all.push(Literal::Integer(Integer::allocate(cs, ty, Mode::Private, Native::Signed(value)).unwrap()));
        }
    }
    let unsigned = [
        (IntegerType::U8, u8::MAX as u128),
        (IntegerType::U16, u16::MAX as u128),
        (IntegerType::U32, u32::MAX as u128),
        (IntegerType::U64, u64::MAX as u128),
        (IntegerType::U128, u128::MAX),
    ];
    for (ty, max) in unsigned {
        for value in [0, 9, 100, max] {
            all.push(Literal::Integer(Integer::allocate(cs, ty, Mode::Constant, Native::Unsigned(value)).unwrap()));
        }
    }
    all
}

/// Two literals say the same when their texts agree: the text holds the kind,
/// the value and the mode.
fn say_the_same(a: &Literal, b: &Literal) -> bool {
    let mut x = Vec::new();
    let mut y = Vec::new();
    a.write_text(&mut x);
    b.write_text(&mut y);
    x == y
}

#[test]
fn instruction_text_is_exact() {
    let neg = Neg::new(Operand::Register(r(0)), r(1));
    assert_eq!(neg.to_text(), text("r0 into r1;"));
    assert_eq!(neg.into_instruction().to_text(), text("neg r0 into r1;"));

    let mut cs = Circuit::new();
    let minus_one = Integer::allocate(&mut cs, IntegerType::I8, Mode::Private, Native::Signed(-1)).unwrap();
    let add = Instruction::Add(BinaryOperation::new(
        Operand::Register(r(18446744073709551615)),
        Operand::Literal(Literal::Integer(minus_one)),
        r(10),
    ));
    assert_eq!(add.to_text(), text("add r18446744073709551615 -1i8.private into r10;"));

    let pow = Instruction::Pow(BinaryOperation::new(
        Operand::Literal(Literal::Field(Field::from_u128(1), Mode::Constant)),
        Operand::Literal(Literal::String(text("hello"), Mode::Public)),
        r(2),
    ));
    assert_eq!(pow.to_text(), text("pow 1field.constant \"68656c6c6f\".public into r2;"));
    let least = Integer::allocate(&mut cs, IntegerType::I128, Mode::Constant, Native::Signed(i128::MIN)).unwrap();
    let truth = cs.allocate(Mode::Public, true);
    let div = Instruction::Div(BinaryOperation::new(
        Operand::Literal(Literal::Integer(least)),
        Operand::Literal(Literal::Boolean(truth)),
        r(0),
    ));
    assert_eq!(
        div.to_text(),
        text("div -170141183460469231731687303715884105728i128.constant true.public into r0;")
    );
    let minus_one = Literal::Field(Field::from_u128(1).negate(), Mode::Private);
    let mut out = Vec::new();
    minus_one.write_text(&mut out);
    assert_eq!(
        out,
        text("8444461749428370424248824938781546531375899335154063827935233455917409239040field.private")
    );
    let mut out = Vec::new();
    Literal::Scalar(Scalar { high: u128::MAX, low: u128::MAX }, Mode::Constant).write_text(&mut out);
    assert_eq!(
        out,
        text("115792089237316195423570985008687907853269984665640564039457584007913129639935scalar.constant")
    );
}

#[test]
fn parsing_undoes_writing_for_every_opcode() {
    for line in [
        "neg r0 into r1;",
        "add r0 r1 into r2;",
        "sub r3 r4 into r5;",
        "mul r0 r0 into r1;",
        "div r10 r11 into r12;",
        "pow r0 r1 into r18446744073709551615;",
        "add 1i8.private -128i8.constant into r0;",
        "mul 340282366920938463463374607431768211455u128.public 0u128.private into r0;",
        "neg -170141183460469231731687303715884105728i128.private into r7;",
        "neg 8444461749428370424248824938781546531375899335154063827935233455917409239040field.public into r7;",
        "neg 2group.constant into r1;",
        "add true.constant false.private into r1;",
        "add \"\".constant \"00ff6a\".private into r1;",
        "sub 5scalar.public 6address.private into r1;",
    ] {
        let mut cs = Circuit::new();
        let instruction = Instruction::parse(&text(line), &mut cs).unwrap();
        assert_eq!(instruction.to_text(), text(line));
    }
}

#[test]
fn parsing_allocates_the_wires_of_literal_operands() {
    let mut cs = Circuit::new();
    let instruction = Instruction::parse(&text("add 5i16.public true.private into r0;"), &mut cs).unwrap();
    assert_eq!(
        cs.count(),
        CircuitCount { constants: 0, public_variables: 16, private_variables: 1, constraints: 17 }
    );
    assert!(cs.is_satisfied());
    match &instruction.operands()[0] {
        Operand::Literal(Literal::Integer(x)) => {
            assert_eq!(x.to_native(), Native::Signed(5));
            assert_eq!(x.mode(), Mode::Public);
            assert_eq!(x.ty(), IntegerType::I16);
        }
        other => panic!("unexpected {:?}", other),
    }
}

#[test]
fn malformed_text_is_refused() {
    for line in [
        "",
        "neg",
        "neg r0 into r1",
        "neg r0 into r1; ",
        " neg r0 into r1;",
        "neg  r0 into r1;",
        "neg r0  into r1;",
        "neg r0 into  r1;",
        "neg r0 to r1;",
        "neg r0 r1 into r2;",
        "add r0 into r1;",
        "nop r0 into r1;",
        "NEG r0 into r1;",
        "neg r00 into r1;",
        "neg r into r1;",
        "neg r0 into r01;",
        "neg r0 into 1;",
        "neg r0 into r18446744073709551616;",
        "neg r-1 into r1;",
        "neg 1i8 into r1;",
        "neg 1i8. into r1;",
        "neg 1i8.secret into r1;",
        "neg 128i8.private into r1;",
        "neg -129i8.private into r1;",
        "neg -0i8.private into r1;",
        "neg 01i8.private into r1;",
        "neg +1i8.private into r1;",
        "neg 1i9.private into r1;",
        "neg i8.private into r1;",
        "neg -1u8.private into r1;",
        "neg 256u8.private into r1;",
        "neg 340282366920938463463374607431768211456u128.public into r1;",
        "neg 8444461749428370424248824938781546531375899335154063827935233455917409239041field.public into r7;",
        "neg -1field.public into r7;",
        "neg 115792089237316195423570985008687907853269984665640564039457584007913129639936scalar.public into r7;",
        "neg True.public into r7;",
        "neg \"0\".public into r7;",
        "neg \"0G\".public into r7;",
        "neg \"0A\".public into r7;",
        "neg \"00.public into r7;",
        "neg \".public into r7;",
    ] {
        assert_eq!(parse(line), Err(Malformed {}), "{:?}", line);
    }
    let mut cs = Circuit::new();
    assert!(Neg::parse(&text("r0 into r1;"), &mut cs).is_ok());
    assert_eq!(Neg::parse(&text("neg r0 into r1;"), &mut cs), Err(Malformed {}));
    assert_eq!(Neg::parse(&text("r0 r1 into r2;"), &mut cs), Err(Malformed {}));
}

#[test]
fn literal_text_and_bytes_round_trip() {
    let mut cs = Circuit::new();
    for literal in literals(&mut cs) {
        let mut written = Vec::new();
        literal.write_text(&mut written);
        let parsed = Literal::parse_text(&written, 0, written.len(), &mut cs).unwrap();
        assert!(say_the_same(&literal, &parsed), "{:?}", literal);
        assert_eq!(literal.type_of(), parsed.type_of());

        let mut bytes = vec![0xaa];
        literal.write_le(&mut bytes);
        bytes.push(0xbb);
        let (read, end) = Literal::read_le(&bytes, 1, &mut cs).unwrap();
        assert_eq!(end, bytes.len() - 1);
        assert!(say_the_same(&literal, &read), "{:?}", literal);
        let mut again = vec![0xaa];
        read.write_le(&mut again);
        again.push(0xbb);
        assert_eq!(bytes, again);
        // A literal cut short is refused.
        bytes.truncate(end - 1);
        assert_eq!(Literal::read_le(&bytes, 1, &mut cs), Err(Malformed {}));
    }
    assert!(cs.is_satisfied());
}

#[test]
fn instruction_bytes_are_exact() {
    let neg = Neg::new(Operand::Register(r(0x0102)), r(1));
    let mut out = Vec::new();
    neg.write_le(&mut out);
    assert_eq!(out, vec![1, 2, 1, 0, 0, 0, 0, 0, 0, 1, 0, 0, 0, 0, 0, 0, 0]);
    let mut out = Vec::new();
    neg.into_instruction().write_le(&mut out);
    assert_eq!(out, vec![5, 0, 1, 2, 1, 0, 0, 0, 0, 0, 0, 1, 0, 0, 0, 0, 0, 0, 0]);

    let mut cs = Circuit::new();
    let minus_two = Integer::allocate(&mut cs, IntegerType::I16, Mode::Private, Native::Signed(-2)).unwrap();
    let add = Instruction::Add(BinaryOperation::new(
        Operand::Literal(Literal::Integer(minus_two)),
        Operand::Literal(Literal::String(text("hi"), Mode::Public)),
        r(3),
    ));
    let mut out = Vec::new();
    add.write_le(&mut out);
    assert_eq!(
        out,
        vec![
            0, 0, // add
            0, 4, 2, 0xfe, 0xff, // a literal: i16, private, -2
            0, 15, 1, 2, 0, 0, 0, 0, 0, 0, 0, 104, 105, // a literal: string, public, "hi"
            3, 0, 0, 0, 0, 0, 0, 0, // r3
        ]
    );
}

#[test]
fn reading_undoes_writing_for_every_opcode() {
    for line in [
        "neg r0 into r1;",
        "add r0 r1 into r2;",
        "sub r3 -5i64.private into r5;",
        "mul 255u8.public r0 into r1;",
        "div 1field.constant 2group.public into r12;",
        "pow \"6869\".constant true.private into r18446744073709551615;",
        "add 3scalar.private 4address.constant into r0;",
    ] {
        let mut cs = Circuit::new();
        let instruction = Instruction::parse(&text(line), &mut cs).unwrap();
        let mut bytes = Vec::new();
        instruction.write_le(&mut bytes);
        let (read, end) = Instruction::read_le(&bytes, 0, &mut cs).unwrap();
        assert_eq!(end, bytes.len());
        assert_eq!(read.to_text(), text(line));
        assert_eq!(read.opcode(), instruction.opcode());
        let mut again = Vec::new();
        read.write_le(&mut again);
        assert_eq!(bytes, again);
        for cut in 0..bytes.len() {
            assert_eq!(Instruction::read_le(&bytes[..cut].to_vec(), 0, &mut cs), Err(Malformed {}));
        }
    }
    let mut cs = Circuit::new();
    let mut bytes = Vec::new();
    Neg::new(Operand::Register(r(9)), r(8)).write_le(&mut bytes);
    let (neg, end) = Neg::read_le(&bytes, 0, &mut cs).unwrap();
    assert_eq!(end, 17);
    assert_eq!(neg, Neg::new(Operand::Register(r(9)), r(8)));
}

#[test]
fn malformed_bytes_are_refused() {
    let mut cs = Circuit::new();
    // An opcode that no instruction has.
    assert_eq!(Instruction::read_le(&vec![6, 0, 1, 0, 0, 0, 0, 0, 0, 0, 0, 1, 0, 0, 0, 0, 0, 0, 0, 0], 0, &mut cs), Err(Malformed {}));
    // An operand tag that is neither literal nor register.
    assert_eq!(Instruction::read_le(&vec![5, 0, 2, 0, 0, 0, 0, 0, 0, 0, 0, 1, 0, 0, 0, 0, 0, 0, 0, 0], 0, &mut cs), Err(Malformed {}));
    // A kind that no literal has, a mode that no literal has, a boolean that is neither.
    assert_eq!(Literal::read_le(&vec![16, 0, 0], 0, &mut cs), Err(Malformed {}));
    assert_eq!(Literal::read_le(&vec![0, 3, 0], 0, &mut cs), Err(Malformed {}));
    assert_eq!(Literal::read_le(&vec![0, 0, 2], 0, &mut cs), Err(Malformed {}));
    // A field element that is not below the modulus.
    let mut bytes = vec![1, 0];
    bytes.extend_from_slice(&0x59aa76fed00000010a11800000000001u128.to_le_bytes());
    bytes.extend_from_slice(&0x12ab655e9a2ca55660b44d1e5c37b001u128.to_le_bytes());
    assert_eq!(Literal::read_le(&bytes, 0, &mut cs), Err(Malformed {}));
    bytes[2] = 0;
    assert!(Literal::read_le(&bytes, 0, &mut cs).is_ok());
    // A string longer than the input.
    assert_eq!(Literal::read_le(&vec![15, 0, 3, 0, 0, 0, 0, 0, 0, 0, 104, 105], 0, &mut cs), Err(Malformed {}));
    // A start beyond the input.
    assert_eq!(Literal::read_le(&vec![0, 0, 1], 7, &mut cs), Err(Malformed {}));
    assert_eq!(Register::read_le(&vec![0, 0, 0, 0, 0, 0, 0], 0), Err(Malformed {}));
}
