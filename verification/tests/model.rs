use zkvm_core::circuit::{Boolean, Circuit, CircuitCount, Constraint};
use zkvm_core::entrypoint::{DecodeError, Entrypoint};
use zkvm_core::field::Field;
use zkvm_core::halt::{Halt, Opcode};
use zkvm_core::integer::{Integer, IntegerType, Native};
use zkvm_core::ir;
use zkvm_core::literal::Literal;
use zkvm_core::mode::{join_modes, Mode};
use zkvm_core::objects::VirtualRecord;
use zkvm_core::operation::{BinaryOperation, Instruction, Neg};
use zkvm_core::programs::Record;
use zkvm_core::registers::{Operand, Register, Registers, Value};

const MODES: [Mode; 3] = [Mode::Constant, Mode::Public, Mode::Private];

fn r(locator: u64) -> Register {
    Register { locator }
}

#[test]
fn join_is_the_maximum() {
    assert_eq!(Mode::Constant.join(Mode::Constant), Mode::Constant);
    assert_eq!(Mode::Constant.join(Mode::Public), Mode::Public);
    assert_eq!(Mode::Public.join(Mode::Constant), Mode::Public);
    assert_eq!(Mode::Public.join(Mode::Private), Mode::Private);
    assert_eq!(Mode::Private.join(Mode::Constant), Mode::Private);
    for a in MODES {
        assert_eq!(a.join(a), a);
        assert_eq!(a.is_constant(), a == Mode::Constant);
        for b in MODES {
            assert_eq!(a.join(b), b.join(a));
            for c in MODES {
                assert_eq!(a.join(b).join(c), a.join(b.join(c)));
                assert_eq!(join_modes(&vec![a, b, c]), a.join(b).join(c));
            }
        }
    }
    assert_eq!(join_modes(&vec![]), Mode::Constant);
}

#[test]
fn allocation_takes_a_relation_per_witness_wire_and_none_per_constant() {
    for (mode, expected) in [
        (Mode::Constant, CircuitCount { constants: 32, public_variables: 0, private_variables: 0, constraints: 0 }),
        (Mode::Public, CircuitCount { constants: 0, public_variables: 32, private_variables: 0, constraints: 32 }),
        (Mode::Private, CircuitCount { constants: 0, public_variables: 0, private_variables: 32, constraints: 32 }),
    ] {
        let mut cs = Circuit::new();
        let x = Integer::allocate(&mut cs, IntegerType::U32, mode, Native::Unsigned(0xdead_beef)).unwrap();
        assert_eq!(cs.count(), expected);
        assert_eq!(x.to_native(), Native::Unsigned(0xdead_beef));
        assert_eq!(x.bits().len(), 32);
        assert!(x.bits().iter().all(|b| b.mode == mode && !b.inverted));
        assert_eq!(x.mode(), mode);
        assert_eq!(x.cached(), if mode == Mode::Constant { Some(Native::Unsigned(0xdead_beef)) } else { None });
        assert!(cs.is_satisfied());
    }
}

#[test]
fn allocation_refuses_what_the_type_cannot_hold() {
    let mut cs = Circuit::new();
    assert!(Integer::allocate(&mut cs, IntegerType::I8, Mode::Private, Native::Signed(128)).is_none());
    assert!(Integer::allocate(&mut cs, IntegerType::I8, Mode::Private, Native::Signed(-129)).is_none());
    assert!(Integer::allocate(&mut cs, IntegerType::I8, Mode::Private, Native::Unsigned(1)).is_none());
    assert!(Integer::allocate(&mut cs, IntegerType::U8, Mode::Private, Native::Signed(1)).is_none());
    assert!(Integer::allocate(&mut cs, IntegerType::U16, Mode::Private, Native::Unsigned(65536)).is_none());
    assert!(Integer::constant(&mut cs, IntegerType::U64, Native::Unsigned(1 << 64)).is_none());
    assert_eq!(cs.count(), CircuitCount::zero());
    assert!(Native::Signed(-128).fits(IntegerType::I8));
    assert!(Native::Unsigned(u128::MAX).fits(IntegerType::U128));
    assert_eq!(IntegerType::I64.width(), 64);
    assert_eq!(IntegerType::I64.least_signed(), i64::MIN as i128);
    assert_eq!(IntegerType::I64.greatest_signed(), i64::MAX as i128);
    assert_eq!(IntegerType::U64.greatest_unsigned(), u64::MAX as u128);
}

#[test]
fn bit_and_byte_views_round_trip_at_every_width() {
    let values = [
        (IntegerType::I8, Native::Signed(-100)),
        (IntegerType::I16, Native::Signed(-12345)),
        (IntegerType::I32, Native::Signed(i32::MIN as i128)),
        (IntegerType::I64, Native::Signed(0x0123_4567_89ab_cdef)),
        (IntegerType::I128, Native::Signed(i128::MIN + 1)),
        (IntegerType::U8, Native::Unsigned(0x71)),
        (IntegerType::U16, Native::Unsigned(0xff00)),
        (IntegerType::U32, Native::Unsigned(0x0102_0304)),
        (IntegerType::U64, Native::Unsigned(u64::MAX as u128)),
        (IntegerType::U128, Native::Unsigned(0x0102_0304_0506_0708_090a_0b0c_0d0e_0f10)),
    ];
    for (ty, native) in values {
        for mode in MODES {
            let mut cs = Circuit::new();
            let x = Integer::allocate(&mut cs, ty, mode, native).unwrap();
            let le = x.to_bits_le();
            let mut be = x.to_bits_be();
            assert_eq!(Integer::from_bits_le(ty, &le).unwrap(), x);
            assert_eq!(Integer::from_bits_be(ty, &be).unwrap(), x);
            be.reverse();
            assert_eq!(be, le);
            assert_eq!(le.len(), ty.width());

            let bytes_le = x.to_bytes_le();
            let mut bytes_be = x.to_bytes_be();
            assert_eq!(bytes_le.len(), ty.width() / 8);
            assert_eq!(Integer::from_bytes_le(ty, &bytes_le).unwrap(), x);
            assert_eq!(Integer::from_bytes_be(ty, &bytes_be).unwrap(), x);
            bytes_be.reverse();
            assert_eq!(bytes_be, bytes_le);
            let natives: Vec<u8> = bytes_le
                .iter()
                .map(|b| match b.to_native() {
                    Native::Unsigned(v) => v as u8,
                    Native::Signed(_) => unreachable!(),
                })
                .collect();
            let expected = match native {
                Native::Signed(v) => v.to_le_bytes()[..ty.width() / 8].to_vec(),
                Native::Unsigned(v) => v.to_le_bytes()[..ty.width() / 8].to_vec(),
            };
            assert_eq!(natives, expected);
            assert_eq!(x.duplicate(), x);
        }
    }
}

#[test]
fn views_refuse_the_wrong_number_of_wires() {
    let mut cs = Circuit::new();
    let x = Integer::allocate(&mut cs, IntegerType::I16, Mode::Private, Native::Signed(5)).unwrap();
    assert!(Integer::from_bits_le(IntegerType::I8, &x.to_bits_le()).is_none());
    assert!(Integer::from_bits_be(IntegerType::I32, &x.to_bits_be()).is_none());
    assert!(Integer::from_bytes_le(IntegerType::I8, &x.to_bytes_le()).is_none());
    assert!(Integer::from_bytes_be(IntegerType::I32, &x.to_bytes_be()).is_none());
    // Two 16-bit integers are not the bytes of a 32-bit integer.
    assert!(Integer::from_bytes_le(IntegerType::I32, &vec![x.duplicate(), x.duplicate()]).is_none());
    // A mix of modes has the join as its mode and no cached value.
    let mut bits = x.to_bits_le();
    bits[3] = cs.allocate(Mode::Public, true);
    bits[4] = cs.allocate(Mode::Constant, true);
    let mixed = Integer::from_bits_le(IntegerType::I16, &bits).unwrap();
    assert_eq!(mixed.mode(), Mode::Private);
    assert_eq!(mixed.cached(), None);
    assert_eq!(mixed.to_native(), Native::Signed(5 | 8 | 16));
}

#[test]
fn circuit_checks_relations_over_its_assignment() {
    let mut cs = Circuit::new();
    assert!(cs.is_satisfied());
    let a = cs.allocate(Mode::Private, true);
    let b = cs.allocate(Mode::Public, true);
    let c = cs.allocate(Mode::Constant, false);
    assert_eq!((a.index, b.index, c.index), (0, 0, 0));
    let (sum, carry) = cs.full_adder(a, b, c, Mode::Private);
    assert_eq!((sum.value, carry.value), (false, true));
    let product = cs.and(a, b.not(), Mode::Private);
    assert!(!product.value);
    let chosen = cs.select(a, b, c, Mode::Public);
    assert!(chosen.value);
    cs.enforce_equal(sum, c, c);
    assert!(cs.is_satisfied());
    assert_eq!(cs.count(), CircuitCount { constants: 1, public_variables: 2, private_variables: 4, constraints: 10 });

    // A relation over a wire that does not exist is not met.
    let missing = Boolean { value: true, mode: Mode::Private, index: 99, inverted: false };
    assert_eq!(cs.value_of(missing.variable()), None);
    assert!(!cs.check(&Constraint::Product { a: missing.variable(), b: a.variable(), out: a.variable() }));
    assert!(!cs.assign(missing.variable(), true));
    // A constant is never changed.
    assert!(!cs.assign(c.variable(), true));
    assert!(cs.is_satisfied());
    // A changed witness breaks the relations that it is in.
    assert!(cs.assign(carry.variable(), false));
    assert!(!cs.is_satisfied());
    assert!(cs.assign(carry.not().variable(), false));
    assert!(cs.is_satisfied());
    assert_eq!(cs.value_of(carry.not().variable()), Some(false));
}

#[test]
fn store_binds_each_register_once() {
    let mut registers = Registers::new();
    let one = || Literal::Field(Field::from_u128(1), Mode::Public);
    assert!(!registers.is_assigned(&r(0)));
    assert_eq!(registers.get(&r(0)), None);
    assert_eq!(registers.load(&Operand::Register(r(0))), Err(Halt::UnboundRegister { locator: 0 }));
    assert_eq!(registers.assign(&r(0), Value::Literal(one())), Ok(()));
    assert_eq!(registers.load(&Operand::Register(r(0))), Ok(&one()));
    assert_eq!(registers.load(&Operand::Literal(one())), Ok(&one()));
    assert_eq!(registers.assign(&r(u64::MAX), Value::Composite(vec![1], vec![one(), one()])), Ok(()));
    assert_eq!(registers.load(&Operand::Register(r(u64::MAX))), Err(Halt::NotALiteral { locator: u64::MAX }));
    assert_eq!(registers.assign(&r(0), Value::Literal(one())), Err(Halt::AlreadyAssigned { locator: 0 }));
    assert!(registers.is_assigned(&r(u64::MAX)));
    assert_eq!(Operand::Literal(one()).duplicate(), Operand::Literal(one()));
}

#[test]
fn entrypoint_decodes_and_encodes() {
    let raw = ir::Entrypoint {
        argument_start_variable: 7,
        instructions: vec![
            ir::Instruction { opcode: 5, operands: vec![Operand::Register(r(1)), Operand::Register(r(0))] },
            ir::Instruction {
                opcode: 0,
                operands: vec![
                    Operand::Register(r(2)),
                    Operand::Register(r(0)),
                    Operand::Literal(Literal::Field(Field::from_u128(3), Mode::Constant)),
                ],
            },
        ],
    };
    let encoded = ir::Entrypoint {
        argument_start_variable: raw.argument_start_variable,
        instructions: vec![
            ir::Instruction { opcode: 5, operands: vec![Operand::Register(r(1)), Operand::Register(r(0))] },
            ir::Instruction {
                opcode: 0,
                operands: vec![
                    Operand::Register(r(2)),
                    Operand::Register(r(0)),
                    Operand::Literal(Literal::Field(Field::from_u128(3), Mode::Constant)),
                ],
            },
        ],
    };
    let entrypoint = Entrypoint::decode(raw).unwrap();
    assert_eq!(entrypoint.argument_start_variable, 7);
    assert_eq!(
        entrypoint.instructions,
        vec![
            Neg::new(Operand::Register(r(0)), r(1)).into_instruction(),
            Instruction::Add(BinaryOperation::new(
                Operand::Register(r(0)),
                Operand::Literal(Literal::Field(Field::from_u128(3), Mode::Constant)),
                r(2)
            )),
        ]
    );
    assert_eq!(entrypoint.encode(), encoded);
    assert_eq!(Entrypoint::decode(entrypoint.encode()), Ok(entrypoint));
}

#[test]
fn entrypoint_reports_the_first_instruction_that_does_not_decode() {
    let bad = |instructions| Entrypoint::decode(ir::Entrypoint { argument_start_variable: 0, instructions });
    let good = || ir::Instruction { opcode: 5, operands: vec![Operand::Register(r(1)), Operand::Register(r(0))] };
    assert_eq!(
        bad(vec![good(), ir::Instruction { opcode: 6, operands: vec![] }, ir::Instruction { opcode: 9, operands: vec![] }]),
        Err(DecodeError::UnknownOpcode { code: 6 })
    );
    assert_eq!(
        bad(vec![ir::Instruction { opcode: 5, operands: vec![Operand::Register(r(1))] }, good()]),
        Err(DecodeError::WrongOperandCount { opcode: Opcode::Neg, found: 1 })
    );
    assert_eq!(
        bad(vec![ir::Instruction {
            opcode: 2,
            operands: vec![Operand::Register(r(1)), Operand::Register(r(1)), Operand::Register(r(1)), Operand::Register(r(1))]
        }]),
        Err(DecodeError::WrongOperandCount { opcode: Opcode::Mul, found: 4 })
    );
    assert_eq!(
        bad(vec![ir::Instruction {
            opcode: 5,
            operands: vec![Operand::Literal(Literal::Field(Field::zero(), Mode::Constant)), Operand::Register(r(0))]
        }]),
        Err(DecodeError::DestinationNotRegister { opcode: Opcode::Neg })
    );
    assert_eq!(bad(vec![]).unwrap().instructions.len(), 0);
    for opcode in [Opcode::Neg, Opcode::Add, Opcode::Sub, Opcode::Mul, Opcode::Div, Opcode::Pow] {
        assert_eq!(Opcode::from_code(opcode.code()), Some(opcode));
    }
    assert_eq!(Opcode::from_code(6), None);
    assert_eq!(Opcode::Pow.arity(), 2);
    assert_eq!(Opcode::Neg.arity(), 1);
    assert_eq!(Opcode::Mul.name(), "mul");
}

#[test]
fn record_without_value_is_a_dummy() {
    let record = |value| VirtualRecord {
        owner: None,
        value,
        payload: None,
        birth_program_id: None,
        death_program_id: None,
        commitment: None,
        commitment_randomness: None,
        serial_number_nonce: None,
        serial_number_nonce_randomness: None,
    };
    assert!(record(None).is_dummy());
    assert!(record(Some(0)).is_dummy());
    assert!(!record(Some(1)).is_dummy());
    assert!(!record(Some(u64::MAX)).is_dummy());
}
