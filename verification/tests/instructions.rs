use zkvm_core::circuit::{Circuit, CircuitCount};
use zkvm_core::circuit::Variable;
use zkvm_core::cost::{count, output_mode, output_type, LiteralKind, LiteralType};
use zkvm_core::field::Field;
use zkvm_core::halt::{Halt, Opcode};
use zkvm_core::integer::{Integer, IntegerType, Native};
use zkvm_core::literal::Literal;
use zkvm_core::mode::Mode;
use zkvm_core::operation::{BinaryOperation, Instruction};
use zkvm_core::registers::{Operand, Register, Registers, Value};

const MODES: [Mode; 3] = [Mode::Constant, Mode::Public, Mode::Private];

const BINARY: [Opcode; 5] = [Opcode::Add, Opcode::Sub, Opcode::Mul, Opcode::Div, Opcode::Pow];

fn r(locator: u64) -> Register {
    Register { locator }
}

fn binary(opcode: Opcode) -> Instruction {
    let operation = BinaryOperation::new(Operand::Register(r(0)), Operand::Register(r(1)), r(2));
    match opcode {
        Opcode::Add => Instruction::Add(operation),
        Opcode::Sub => Instruction::Sub(operation),
        Opcode::Mul => Instruction::Mul(operation),
        Opcode::Div => Instruction::Div(operation),
        _ => Instruction::Pow(operation),
    }
}

fn integer(cs: &mut Circuit, ty: IntegerType, mode: Mode, value: i128) -> Literal {
    let native = if ty.is_signed() { Native::Signed(value) } else { Native::Unsigned(value as u128) };
    Literal::Integer(Integer::allocate(cs, ty, mode, native).unwrap())
}

fn expected(opcode: Opcode, a: i128, b: i128) -> i128 {
    match opcode {
        Opcode::Add => a + b,
        Opcode::Sub => a - b,
        Opcode::Mul => a * b,
        Opcode::Div => a / b,
        _ => a.pow(b as u32),
    }
}

/// Evaluates `<opcode> r0 r1 into r2;` and checks the result, its mode, and
/// that the circuit grew by exactly what the cost model gives.
fn check(opcode: Opcode, ty: IntegerType, first: Mode, second: Mode, a: i128, b: i128) {
    let mut cs = Circuit::new();
    let mut registers = Registers::new();
    let x = integer(&mut cs, ty, first, a);
    let y = integer(&mut cs, ty, second, b);
    registers.assign(&r(0), Value::Literal(x)).unwrap();
    registers.assign(&r(1), Value::Literal(y)).unwrap();
    let before = cs.count();
    let instruction = binary(opcode);
    assert_eq!(instruction.evaluate(&mut registers, &mut cs), Ok(()));
    let after = cs.count();
    let types = vec![
        LiteralType { kind: LiteralKind::Integer(ty), mode: first },
        LiteralType { kind: LiteralKind::Integer(ty), mode: second },
    ];
    let cost = instruction.count(&types).unwrap();
    assert_eq!(cost, count(opcode, &types).unwrap());
    assert_eq!(after.constants, before.constants + cost.constants);
    assert_eq!(after.public_variables, before.public_variables + cost.public_variables);
    assert_eq!(after.private_variables, before.private_variables + cost.private_variables);
    assert_eq!(after.constraints, before.constraints + cost.constraints);
    let output = instruction.output_type(&types).unwrap();
    assert_eq!(output, LiteralType { kind: LiteralKind::Integer(ty), mode: first.join(second) });
    assert_eq!(output, output_type(opcode, &types).unwrap());
    assert_eq!(output.mode, output_mode(opcode, &vec![first, second]));
    match registers.get(&r(2)) {
        Some(Value::Literal(Literal::Integer(result))) => {
            let native = if ty.is_signed() {
                Native::Signed(expected(opcode, a, b))
            } else {
                Native::Unsigned(expected(opcode, a, b) as u128)
            };
            assert_eq!(result.to_native(), native);
            assert_eq!(result.mode(), first.join(second));
        }
        other => panic!("unexpected {:?}", other),
    }
    assert!(cs.is_satisfied());
    if first.join(second) == Mode::Constant {
        assert_eq!(cost.public_variables + cost.private_variables + cost.constraints, 0);
    }
}

#[test]
fn count_equals_what_evaluation_produces_for_every_opcode_and_mode_combination() {
    for opcode in BINARY {
        for first in MODES {
            for second in MODES {
                check(opcode, IntegerType::I8, first, second, -7, 2);
                check(opcode, IntegerType::I16, first, second, 9, 3);
                if opcode != Opcode::Sub {
                    check(opcode, IntegerType::U8, first, second, 7, 2);
                    check(opcode, IntegerType::U32, first, second, 1000, 3);
                }
            }
        }
    }
}

#[test]
fn constant_and_witness_paths_agree_on_every_pair_of_small_numbers() {
    for opcode in [Opcode::Add, Opcode::Sub, Opcode::Mul, Opcode::Div] {
        for a in [-128i128, -127, -12, -1, 0, 1, 2, 11, 64, 127] {
            for b in [-128i128, -127, -3, -1, 0, 1, 2, 5, 127] {
                let mut results = Vec::new();
                for (first, second) in
                    [(Mode::Constant, Mode::Constant), (Mode::Private, Mode::Constant), (Mode::Public, Mode::Private)]
                {
                    let mut cs = Circuit::new();
                    let x = integer(&mut cs, IntegerType::I8, first, a);
                    let y = integer(&mut cs, IntegerType::I8, second, b);
                    let out = match (&x, &y) {
                        (Literal::Integer(x), Literal::Integer(y)) => match opcode {
                            Opcode::Add => x.add(&mut cs, y),
                            Opcode::Sub => x.subtract(&mut cs, y),
                            Opcode::Mul => x.multiply(&mut cs, y),
                            _ => x.divide(&mut cs, y),
                        },
                        _ => unreachable!(),
                    };
                    if out.is_ok() {
                        assert!(cs.is_satisfied());
                    }
                    results.push(out.map(|r| r.to_native()));
                }
                assert_eq!(results[0], results[1]);
                assert_eq!(results[0], results[2]);
                let native = match opcode {
                    Opcode::Add => (a as i8).checked_add(b as i8),
                    Opcode::Sub => (b as i8).checked_neg().and_then(|n| (a as i8).checked_add(n)),
                    Opcode::Mul => (a as i8).checked_mul(b as i8),
                    _ => (a as i8).checked_div(b as i8),
                };
                assert_eq!(results[0].ok(), native.map(|v| Native::Signed(v as i128)));
            }
        }
    }
}

#[test]
fn halts_are_told_apart() {
    let ty = IntegerType::I8;
    let cases: Vec<(Opcode, i128, i128, Halt)> = vec![
        (Opcode::Add, 127, 1, Halt::Overflow { opcode: Opcode::Add, ty }),
        (Opcode::Add, -128, -1, Halt::Overflow { opcode: Opcode::Add, ty }),
        (Opcode::Sub, -1, -128, Halt::Overflow { opcode: Opcode::Sub, ty }),
        (Opcode::Sub, -2, 127, Halt::Overflow { opcode: Opcode::Sub, ty }),
        (Opcode::Mul, 16, 8, Halt::Overflow { opcode: Opcode::Mul, ty }),
        (Opcode::Mul, -128, -1, Halt::Overflow { opcode: Opcode::Mul, ty }),
        (Opcode::Div, 5, 0, Halt::DivisionByZero { ty }),
        (Opcode::Div, -128, 0, Halt::DivisionByZero { ty }),
        (Opcode::Div, -128, -1, Halt::Overflow { opcode: Opcode::Div, ty }),
        (Opcode::Pow, 2, -1, Halt::NegativeExponent { ty }),
        (Opcode::Pow, 1, -128, Halt::NegativeExponent { ty }),
        (Opcode::Pow, 2, 7, Halt::Overflow { opcode: Opcode::Pow, ty }),
        (Opcode::Pow, -2, 8, Halt::Overflow { opcode: Opcode::Pow, ty }),
    ];
    for (opcode, a, b, halt) in cases {
        for first in MODES {
            for second in MODES {
                let mut cs = Circuit::new();
                let mut registers = Registers::new();
                let x = integer(&mut cs, ty, first, a);
                let y = integer(&mut cs, ty, second, b);
                registers.assign(&r(0), Value::Literal(x)).unwrap();
                registers.assign(&r(1), Value::Literal(y)).unwrap();
                assert_eq!(binary(opcode).evaluate(&mut registers, &mut cs), Err(halt));
                assert!(!registers.is_assigned(&r(2)));
            }
        }
    }
    assert_eq!(Halt::DivisionByZero { ty }.message(), "Division by zero");
    assert_eq!(Halt::NegativeExponent { ty }.message(), "Negative exponent");
    assert_eq!(Halt::UnboundRegister { locator: 3 }.message(), "Register is not assigned");
    assert_eq!(Halt::AlreadyAssigned { locator: 3 }.message(), "Register is already assigned");
}

#[test]
fn boundary_results_are_reached() {
    for first in MODES {
        for second in MODES {
            check(Opcode::Add, IntegerType::I8, first, second, 126, 1);
            check(Opcode::Add, IntegerType::I8, first, second, -127, -1);
            check(Opcode::Sub, IntegerType::I8, first, second, -1, 127);
            check(Opcode::Mul, IntegerType::I8, first, second, -64, 2);
            check(Opcode::Mul, IntegerType::I8, first, second, 0, -128);
            check(Opcode::Div, IntegerType::I8, first, second, -128, 1);
            check(Opcode::Div, IntegerType::I8, first, second, -7, 2);
            check(Opcode::Div, IntegerType::I8, first, second, 7, -2);
            check(Opcode::Pow, IntegerType::I8, first, second, -2, 7);
            check(Opcode::Pow, IntegerType::I8, first, second, 0, 0);
            check(Opcode::Pow, IntegerType::I8, first, second, -1, 127);
            check(Opcode::Add, IntegerType::U8, first, second, 254, 1);
            check(Opcode::Mul, IntegerType::U8, first, second, 15, 17);
            check(Opcode::Pow, IntegerType::U8, first, second, 2, 7);
            check(Opcode::Pow, IntegerType::U8, first, second, 1, 255);
            check(Opcode::Div, IntegerType::U8, first, second, 255, 16);
        }
    }
}

#[test]
fn unsigned_overflow_and_subtraction_halt() {
    let ty = IntegerType::U8;
    for (opcode, a, b, halt) in [
        (Opcode::Add, 255, 1, Halt::Overflow { opcode: Opcode::Add, ty }),
        (Opcode::Mul, 16, 16, Halt::Overflow { opcode: Opcode::Mul, ty }),
        (Opcode::Pow, 2, 8, Halt::Overflow { opcode: Opcode::Pow, ty }),
        (Opcode::Div, 1, 0, Halt::DivisionByZero { ty }),
        (Opcode::Sub, 5, 3, Halt::InvalidInstruction { opcode: Opcode::Sub }),
    ] {
        for mode in MODES {
            let mut cs = Circuit::new();
            let mut registers = Registers::new();
            let x = integer(&mut cs, ty, mode, a);
            let y = integer(&mut cs, ty, Mode::Private, b);
            registers.assign(&r(0), Value::Literal(x)).unwrap();
            registers.assign(&r(1), Value::Literal(y)).unwrap();
            assert_eq!(binary(opcode).evaluate(&mut registers, &mut cs), Err(halt));
        }
    }
}

#[test]
fn wide_types_compute_at_their_limits() {
    for mode in [Mode::Constant, Mode::Private] {
        check(Opcode::Add, IntegerType::I128, mode, mode, i128::MAX - 1, 1);
        check(Opcode::Add, IntegerType::I128, mode, mode, i128::MIN + 1, -1);
        check(Opcode::Sub, IntegerType::I128, mode, mode, -1, i128::MAX);
        check(Opcode::Mul, IntegerType::I128, mode, mode, i128::MIN / 2, 2);
        check(Opcode::Mul, IntegerType::I64, mode, mode, i64::MAX as i128, -1);
        check(Opcode::Div, IntegerType::I128, mode, mode, i128::MIN, 3);
        check(Opcode::Div, IntegerType::I64, mode, mode, i64::MIN as i128, 1);
        check(Opcode::Pow, IntegerType::I16, mode, mode, -2, 15);
    }
    for mode in [Mode::Constant, Mode::Private] {
        let mut cs = Circuit::new();
        let x = Integer::allocate(&mut cs, IntegerType::U128, mode, Native::Unsigned(u128::MAX)).unwrap();
        let one = Integer::allocate(&mut cs, IntegerType::U128, mode, Native::Unsigned(1)).unwrap();
        let two = Integer::allocate(&mut cs, IntegerType::U128, mode, Native::Unsigned(2)).unwrap();
        assert_eq!(x.add(&mut cs, &one), Err(Halt::Overflow { opcode: Opcode::Add, ty: IntegerType::U128 }));
        assert_eq!(x.multiply(&mut cs, &two), Err(Halt::Overflow { opcode: Opcode::Mul, ty: IntegerType::U128 }));
        assert_eq!(x.multiply(&mut cs, &one).unwrap().to_native(), Native::Unsigned(u128::MAX));
        assert_eq!(x.divide(&mut cs, &two).unwrap().to_native(), Native::Unsigned(u128::MAX / 2));
        let least = Integer::allocate(&mut cs, IntegerType::I128, mode, Native::Signed(i128::MIN)).unwrap();
        let minus = Integer::allocate(&mut cs, IntegerType::I128, mode, Native::Signed(-1)).unwrap();
        assert_eq!(least.divide(&mut cs, &minus), Err(Halt::Overflow { opcode: Opcode::Div, ty: IntegerType::I128 }));
        assert_eq!(least.multiply(&mut cs, &minus), Err(Halt::Overflow { opcode: Opcode::Mul, ty: IntegerType::I128 }));
        assert_eq!(least.negate(&mut cs), Err(Halt::Overflow { opcode: Opcode::Neg, ty: IntegerType::I128 }));
        assert_eq!(least.to_native(), Native::Signed(i128::MIN));
    }
}

#[test]
fn costs_are_exact_for_chosen_types() {
    let private = |ty| LiteralType { kind: LiteralKind::Integer(ty), mode: Mode::Private };
    let constant = |ty| LiteralType { kind: LiteralKind::Integer(ty), mode: Mode::Constant };
    // One constant, and per wire a sum and a carry with three relations; one
    // relation for the overflow.
    assert_eq!(
        count(Opcode::Add, &vec![private(IntegerType::I8), constant(IntegerType::I8)]),
        Ok(CircuitCount { constants: 1, public_variables: 0, private_variables: 16, constraints: 25 })
    );
    assert_eq!(
        count(Opcode::Add, &vec![constant(IntegerType::U64), constant(IntegerType::U64)]),
        Ok(CircuitCount { constants: 64, public_variables: 0, private_variables: 0, constraints: 0 })
    );
    // A negation of the second operand, then an addition.
    assert_eq!(
        count(Opcode::Sub, &vec![private(IntegerType::I8), private(IntegerType::I8)]),
        Ok(CircuitCount { constants: 3, public_variables: 0, private_variables: 32, constraints: 50 })
    );
    // Eight rows of eight products and eight adders, and eight relations for
    // the upper half.
    assert_eq!(
        count(Opcode::Mul, &vec![private(IntegerType::U8), private(IntegerType::U8)]),
        Ok(CircuitCount { constants: 1, public_variables: 0, private_variables: 192, constraints: 328 })
    );
    assert_eq!(
        count(Opcode::Add, &vec![private(IntegerType::I8), private(IntegerType::I16)]),
        Err(Halt::InvalidInstruction { opcode: Opcode::Add })
    );
    assert_eq!(count(Opcode::Add, &vec![private(IntegerType::I8)]), Err(Halt::InvalidInstruction { opcode: Opcode::Add }));
    assert_eq!(
        count(Opcode::Sub, &vec![private(IntegerType::U8), private(IntegerType::U8)]),
        Err(Halt::InvalidInstruction { opcode: Opcode::Sub })
    );
    // The cost of a 128-bit power is looked up without building the circuit.
    let wide = count(Opcode::Pow, &vec![private(IntegerType::I128), private(IntegerType::I128)]).unwrap();
    assert!(wide.constraints > 1_000_000);
}

#[test]
fn fields_add_and_subtract_at_no_cost() {
    let mut cs = Circuit::new();
    let mut registers = Registers::new();
    registers.assign(&r(0), Value::Literal(Literal::Field(Field::from_u128(5), Mode::Public))).unwrap();
    registers.assign(&r(1), Value::Literal(Literal::Field(Field::from_u128(7), Mode::Constant))).unwrap();
    assert_eq!(binary(Opcode::Sub).evaluate(&mut registers, &mut cs), Ok(()));
    let difference = Field::from_u128(2).negate();
    assert_eq!(registers.get(&r(2)), Some(&Value::Literal(Literal::Field(difference, Mode::Public))));
    assert_eq!(cs.count(), CircuitCount { constants: 0, public_variables: 0, private_variables: 0, constraints: 0 });
    let types = vec![
        LiteralType { kind: LiteralKind::Field, mode: Mode::Public },
        LiteralType { kind: LiteralKind::Field, mode: Mode::Constant },
    ];
    assert_eq!(count(Opcode::Sub, &types), Ok(CircuitCount::zero()));
    assert_eq!(output_type(Opcode::Sub, &types), Ok(LiteralType { kind: LiteralKind::Field, mode: Mode::Public }));
    assert_eq!(count(Opcode::Mul, &types), Err(Halt::InvalidInstruction { opcode: Opcode::Mul }));

    let mut registers = Registers::new();
    registers.assign(&r(0), Value::Literal(Literal::Field(Field::from_u128(5), Mode::Public))).unwrap();
    registers.assign(&r(1), Value::Literal(Literal::Field(Field::from_u128(5).negate(), Mode::Private))).unwrap();
    assert_eq!(binary(Opcode::Add).evaluate(&mut registers, &mut cs), Ok(()));
    assert_eq!(registers.get(&r(2)), Some(&Value::Literal(Literal::Field(Field::zero(), Mode::Private))));

    let mut registers = Registers::new();
    registers.assign(&r(0), Value::Literal(Literal::Field(Field::from_u128(5), Mode::Public))).unwrap();
    registers.assign(&r(1), Value::Literal(integer(&mut cs, IntegerType::I8, Mode::Public, 1))).unwrap();
    assert_eq!(
        binary(Opcode::Add).evaluate(&mut registers, &mut cs),
        Err(Halt::InvalidInstruction { opcode: Opcode::Add })
    );
}

/// The wires that came after the given count, by mode.
fn later_wires(before: CircuitCount, after: CircuitCount) -> Vec<Variable> {
    let mut wires = Vec::new();
    for index in before.public_variables..after.public_variables {
        wires.push(Variable { mode: Mode::Public, index: index as usize, inverted: false });
    }
    for index in before.private_variables..after.private_variables {
        wires.push(Variable { mode: Mode::Private, index: index as usize, inverted: false });
    }
    wires
}

#[test]
fn every_wire_that_an_operation_makes_is_forced() {
    for opcode in BINARY {
        for (first, second) in [(Mode::Private, Mode::Private), (Mode::Public, Mode::Constant)] {
            for ty in [IntegerType::I8, IntegerType::U8] {
                if opcode == Opcode::Sub && !ty.is_signed() {
                    continue;
                }
                let mut cs = Circuit::new();
                let mut registers = Registers::new();
                let x = integer(&mut cs, ty, first, 5);
                let y = integer(&mut cs, ty, second, 3);
                registers.assign(&r(0), Value::Literal(x)).unwrap();
                registers.assign(&r(1), Value::Literal(y)).unwrap();
                let before = cs.count();
                assert_eq!(binary(opcode).evaluate(&mut registers, &mut cs), Ok(()));
                assert!(cs.is_satisfied());
                let made = later_wires(before, cs.count());
                assert!(!made.is_empty());
                // No wire that the operation made can read otherwise.
                for wire in made {
                    let value = cs.value_of(wire).unwrap();
                    assert!(cs.assign(wire, !value));
                    assert!(!cs.is_satisfied(), "{:?} {:?} {:?}", opcode, ty, wire);
                    assert!(cs.assign(wire, value));
                }
                assert!(cs.is_satisfied());
                assert_eq!(cs.constraints().len() as u64, cs.count().constraints);
                assert_eq!(cs.assignment(Mode::Private).len() as u64, cs.count().private_variables);
            }
        }
    }
}
