use zkvm_core::circuit::{Circuit, CircuitCount};
use zkvm_core::cost::{LiteralKind, LiteralType};
use zkvm_core::field::{AddressValue, Field, Group, Scalar};
use zkvm_core::halt::{Halt, Opcode};
use zkvm_core::integer::{Integer, IntegerType, Native};
use zkvm_core::literal::Literal;
use zkvm_core::mode::Mode;
use zkvm_core::operation::{Instruction, Neg};
use zkvm_core::registers::{Operand, Register, Registers, Value};

const MODES: [Mode; 3] = [Mode::Constant, Mode::Public, Mode::Private];

const SIGNED: [IntegerType; 5] =
    [IntegerType::I8, IntegerType::I16, IntegerType::I32, IntegerType::I64, IntegerType::I128];

const UNSIGNED: [IntegerType; 5] =
    [IntegerType::U8, IntegerType::U16, IntegerType::U32, IntegerType::U64, IntegerType::U128];

fn r(locator: u64) -> Register {
    Register { locator }
}

fn neg_r0_into_r1() -> Neg {
    Neg::new(Operand::Register(r(0)), r(1))
}

fn signed(cs: &mut Circuit, ty: IntegerType, mode: Mode, value: i128) -> Literal {
    Literal::Integer(Integer::allocate(cs, ty, mode, Native::Signed(value)).unwrap())
}

fn unsigned(cs: &mut Circuit, ty: IntegerType, mode: Mode, value: u128) -> Literal {
    Literal::Integer(Integer::allocate(cs, ty, mode, Native::Unsigned(value)).unwrap())
}

fn least(ty: IntegerType) -> i128 {
    match ty {
        IntegerType::I8 => i8::MIN as i128,
        IntegerType::I16 => i16::MIN as i128,
        IntegerType::I32 => i32::MIN as i128,
        IntegerType::I64 => i64::MIN as i128,
        _ => i128::MIN,
    }
}

/// Runs `neg r0 into r1;` with the given literal in `r0`.
fn run(cs: &mut Circuit, operand: Literal) -> (Result<(), Halt>, Registers) {
    let mut registers = Registers::new();
    registers.assign(&r(0), Value::Literal(operand)).unwrap();
    let out = neg_r0_into_r1().evaluate(&mut registers, cs);
    (out, registers)
}

fn assert_halts(operand: Literal, expected: Halt, message: &str) {
    let mut cs = Circuit::new();
    let (out, registers) = run(&mut cs, operand);
    assert_eq!(out, Err(expected));
    assert_eq!(expected.message(), message);
    assert!(!registers.is_assigned(&r(1)));
}

#[test]
fn test_parse() {
    let mut cs = Circuit::new();
    let instruction = Instruction::parse(&"neg r0 into r1;".as_bytes().to_vec(), &mut cs).unwrap();
    assert!(matches!(instruction, Instruction::Neg(_)));
    assert_eq!(instruction.operands(), vec![Operand::Register(r(0))]);
    assert_eq!(*instruction.destination(), r(1));
}

#[test]
fn opcode_is_neg() {
    assert_eq!(Neg::opcode(), "neg");
    assert_eq!(neg_r0_into_r1().operands(), vec![Operand::Register(r(0))]);
    assert_eq!(*neg_r0_into_r1().destination(), r(1));
    assert_eq!(neg_r0_into_r1().into_instruction().opcode(), Opcode::Neg);
}

#[test]
fn field_one_negates_to_minus_one_in_every_mode() {
    for mode in MODES {
        let mut cs = Circuit::new();
        let (out, registers) = run(&mut cs, Literal::Field(Field::from_u128(1), mode));
        assert_eq!(out, Ok(()));
        // -1 is the modulus less one.
        let expected = Field::from_limbs(
            0x12ab655e9a2ca55660b44d1e5c37b001,
            0x59aa76fed00000010a11800000000000,
        )
        .unwrap();
        assert_eq!(registers.get(&r(1)), Some(&Value::Literal(Literal::Field(expected, mode))));
        assert_eq!(cs.count(), CircuitCount { constants: 0, public_variables: 0, private_variables: 0, constraints: 0 });
    }
}

#[test]
fn group_two_negates_to_minus_two_in_every_mode() {
    for mode in MODES {
        let mut cs = Circuit::new();
        let (out, registers) = run(&mut cs, Literal::Group(Group { x: Field::from_u128(2) }, mode));
        assert_eq!(out, Ok(()));
        let expected = Field::from_limbs(
            0x12ab655e9a2ca55660b44d1e5c37b001,
            0x59aa76fed00000010a117fffffffffff,
        )
        .unwrap();
        assert_eq!(registers.get(&r(1)), Some(&Value::Literal(Literal::Group(Group { x: expected }, mode))));
    }
}

#[test]
fn field_zero_negates_to_zero() {
    assert_eq!(Field::zero().negate(), Field::zero());
    assert_eq!(Field::from_u128(7).negate().negate(), Field::from_u128(7));
    assert_eq!(Field::from_u128(7).add(&Field::from_u128(7).negate()), Field::zero());
}

#[test]
fn signed_one_negates_to_minus_one_in_every_mode_and_width() {
    for ty in SIGNED {
        for mode in MODES {
            let mut cs = Circuit::new();
            let operand = signed(&mut cs, ty, mode, 1);
            let before = cs.count();
            let (out, registers) = run(&mut cs, operand);
            assert_eq!(out, Ok(()));
            match registers.get(&r(1)) {
                Some(Value::Literal(Literal::Integer(result))) => {
                    assert_eq!(result.to_native(), Native::Signed(-1));
                    assert_eq!(result.mode(), mode);
                    assert_eq!(result.ty(), ty);
                    assert_eq!(result.is_constant(), mode == Mode::Constant);
                }
                other => panic!("unexpected {:?}", other),
            }
            let after = cs.count();
            let input = LiteralType { kind: LiteralKind::Integer(ty), mode };
            let cost = Neg::count(&input).unwrap();
            assert_eq!(after.constants, before.constants + cost.constants);
            assert_eq!(after.public_variables, before.public_variables + cost.public_variables);
            assert_eq!(after.private_variables, before.private_variables + cost.private_variables);
            assert_eq!(after.constraints, before.constraints + cost.constraints);
            assert_eq!(Neg::output_type(&input), Ok(input));
            assert!(cs.is_satisfied());
        }
    }
}

#[test]
fn negation_cost_of_a_private_i8_is_exact() {
    let input = LiteralType { kind: LiteralKind::Integer(IntegerType::I8), mode: Mode::Private };
    // Two constants, eight sum wires and eight carries, three relations per
    // adder and one for the overflow.
    assert_eq!(
        Neg::count(&input),
        Ok(CircuitCount { constants: 2, public_variables: 0, private_variables: 16, constraints: 25 })
    );
    let input = LiteralType { kind: LiteralKind::Integer(IntegerType::I8), mode: Mode::Public };
    assert_eq!(
        Neg::count(&input),
        Ok(CircuitCount { constants: 2, public_variables: 8, private_variables: 8, constraints: 25 })
    );
    let input = LiteralType { kind: LiteralKind::Integer(IntegerType::I8), mode: Mode::Constant };
    assert_eq!(
        Neg::count(&input),
        Ok(CircuitCount { constants: 8, public_variables: 0, private_variables: 0, constraints: 0 })
    );
}

#[test]
fn signed_minimum_halts_with_overflow_in_every_mode_and_width() {
    for ty in SIGNED {
        for mode in MODES {
            let mut cs = Circuit::new();
            let operand = signed(&mut cs, ty, mode, least(ty));
            assert_halts(operand, Halt::Overflow { opcode: Opcode::Neg, ty }, "Integer overflow");
        }
    }
}

#[test]
fn unsigned_halts_with_invalid_instruction_in_every_mode_and_width() {
    for ty in UNSIGNED {
        for mode in MODES {
            let mut cs = Circuit::new();
            let operand = unsigned(&mut cs, ty, mode, 1);
            assert_halts(operand, Halt::InvalidInstruction { opcode: Opcode::Neg }, "Invalid instruction");
            let input = LiteralType { kind: LiteralKind::Integer(ty), mode };
            assert_eq!(Neg::count(&input), Err(Halt::InvalidInstruction { opcode: Opcode::Neg }));
            assert_eq!(Neg::output_type(&input), Err(Halt::InvalidInstruction { opcode: Opcode::Neg }));
        }
    }
}

#[test]
fn scalar_address_boolean_string_halt_with_invalid_instruction() {
    let invalid = Halt::InvalidInstruction { opcode: Opcode::Neg };
    assert_halts(Literal::Scalar(Scalar { high: 0, low: 1 }, Mode::Constant), invalid, "Invalid instruction");
    assert_halts(Literal::Address(AddressValue { high: 5, low: 9 }, Mode::Constant), invalid, "Invalid instruction");
    assert_halts(Literal::String("hello".as_bytes().to_vec(), Mode::Constant), invalid, "Invalid instruction");
    let mut cs = Circuit::new();
    let wire = cs.allocate(Mode::Constant, true);
    assert_halts(Literal::Boolean(wire), invalid, "Invalid instruction");
    for kind in [LiteralKind::Scalar, LiteralKind::Address, LiteralKind::Boolean, LiteralKind::String] {
        assert_eq!(Neg::count(&LiteralType { kind, mode: Mode::Private }), Err(invalid));
    }
}

#[test]
fn unbound_and_composite_operands_halt() {
    let mut cs = Circuit::new();
    let mut registers = Registers::new();
    let out = neg_r0_into_r1().evaluate(&mut registers, &mut cs);
    assert_eq!(out, Err(Halt::UnboundRegister { locator: 0 }));

    let member = Literal::Field(Field::from_u128(1), Mode::Constant);
    registers.assign(&r(0), Value::Composite("message".as_bytes().to_vec(), vec![member])).unwrap();
    let out = neg_r0_into_r1().evaluate(&mut registers, &mut cs);
    assert_eq!(out, Err(Halt::NotALiteral { locator: 0 }));
    assert_eq!(out.unwrap_err().message(), "Register does not hold a literal");
    assert!(!registers.is_assigned(&r(1)));
}

#[test]
fn bound_destination_halts_and_keeps_the_store() {
    let mut cs = Circuit::new();
    let mut registers = Registers::new();
    registers.assign(&r(0), Value::Literal(Literal::Field(Field::from_u128(1), Mode::Private))).unwrap();
    registers.assign(&r(1), Value::Literal(Literal::Field(Field::from_u128(9), Mode::Private))).unwrap();
    let out = neg_r0_into_r1().evaluate(&mut registers, &mut cs);
    assert_eq!(out, Err(Halt::AlreadyAssigned { locator: 1 }));
    assert_eq!(
        registers.get(&r(1)),
        Some(&Value::Literal(Literal::Field(Field::from_u128(9), Mode::Private)))
    );
    assert_eq!(
        registers.assign(&r(0), Value::Literal(Literal::Field(Field::zero(), Mode::Private))),
        Err(Halt::AlreadyAssigned { locator: 0 })
    );
}

#[test]
fn literal_operand_is_negated_in_place() {
    let mut cs = Circuit::new();
    let mut registers = Registers::new();
    let operand = signed(&mut cs, IntegerType::I16, Mode::Private, -300);
    let neg = Neg::new(Operand::Literal(operand), r(4));
    assert_eq!(neg.evaluate(&mut registers, &mut cs), Ok(()));
    match registers.get(&r(4)) {
        Some(Value::Literal(Literal::Integer(result))) => assert_eq!(result.to_native(), Native::Signed(300)),
        other => panic!("unexpected {:?}", other),
    }
}
