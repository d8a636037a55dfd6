use rand::{Rng, SeedableRng};
use rand_xorshift::XorShiftRng;

use zkvm_core::circuit::{Boolean, Circuit};
use zkvm_core::integer::{Integer, IntegerType, Native};
use zkvm_core::mode::Mode;

fn witness(cs: &mut Circuit, value: i8) -> Integer {
    Integer::allocate(cs, IntegerType::I8, Mode::Private, Native::Signed(value as i128)).unwrap()
}

fn known(cs: &mut Circuit, value: i8) -> Integer {
    Integer::constant(cs, IntegerType::I8, Native::Signed(value as i128)).unwrap()
}

fn constant_byte(cs: &mut Circuit, value: u8) -> Integer {
    Integer::constant(cs, IntegerType::U8, Native::Unsigned(value as u128)).unwrap()
}

fn native(value: &Integer) -> i8 {
    match value.to_native() {
        Native::Signed(v) => v as i8,
        Native::Unsigned(_) => unreachable!(),
    }
}

fn native_byte(value: &Integer) -> u8 {
    match value.to_native() {
        Native::Unsigned(v) => v as u8,
        Native::Signed(_) => unreachable!(),
    }
}

fn flip(cs: &mut Circuit, wire: &Boolean) {
    let current = cs.value_of(wire.variable()).unwrap();
    assert!(cs.assign(wire.variable(), !current));
}

fn check_all_constant_bits(expected: i8, actual: Integer) {
    for (i, b) in actual.bits().iter().enumerate() {
        // shift value by i
        let mask = 1 << i as i8;
        let result = expected & mask;

        assert!(b.mode == Mode::Constant);
        let bit = result == mask;
        assert_eq!(b.value, bit);
    }
}

fn check_all_allocated_bits(expected: i8, actual: Integer) {
    for (i, b) in actual.bits().iter().enumerate() {
        // shift value by i
        let mask = 1 << i as i8;
        let result = expected & mask;

        assert!(b.mode != Mode::Constant);
        let bit = result == mask;
        assert_eq!(b.value, bit);
    }
}

#[test]
fn test_int8_to_bits_be() {
    let mut rng = XorShiftRng::seed_from_u64(1231275789u64);

    for _ in 0..1000 {
        let mut cs = Circuit::new();

        let byte_val: i8 = rng.gen();
        let byte = witness(&mut cs, byte_val);

        let bits = byte.to_bits_be();
        for (i, bit) in bits.iter().rev().enumerate() {
            assert_eq!(bit.value, (byte_val >> i) & 1 == 1);
        }

        assert!(cs.is_satisfied());
    }
}

#[test]
fn test_int8_to_bits_le() {
    let mut rng = XorShiftRng::seed_from_u64(1231275789u64);

    for _ in 0..1000 {
        let mut cs = Circuit::new();

        let byte_val: i8 = rng.gen();
        let byte = witness(&mut cs, byte_val);

        let bits = byte.to_bits_le();
        for (i, bit) in bits.iter().enumerate() {
            assert_eq!(bit.value, (byte_val >> i) & 1 == 1);
        }

        assert!(cs.is_satisfied());
    }
}

#[test]
fn test_int8_to_bytes_be() {
    let mut rng = XorShiftRng::seed_from_u64(1231275789u64);

    for _ in 0..1000 {
        let mut cs = Circuit::new();

        let byte_val: i8 = rng.gen();
        let bytes = byte_val.to_be_bytes();
        let byte = witness(&mut cs, byte_val);

        let bytes_from_gadget: Vec<u8> = byte.to_bytes_be().iter().map(native_byte).collect();

        assert_eq!(bytes.to_vec(), bytes_from_gadget);
        assert!(cs.is_satisfied());
    }
}

#[test]
fn test_int8_to_bytes_le() {
    let mut rng = XorShiftRng::seed_from_u64(1231275789u64);

    for _ in 0..1000 {
        let mut cs = Circuit::new();

        let byte_val: i8 = rng.gen();
        let bytes = byte_val.to_le_bytes();
        let byte = witness(&mut cs, byte_val);

        let bytes_from_gadget: Vec<u8> = byte.to_bytes_le().iter().map(native_byte).collect();

        assert_eq!(bytes.to_vec(), bytes_from_gadget);
        assert!(cs.is_satisfied());
    }
}

#[test]
fn test_int8_from_bits_be() {
    let mut rng = XorShiftRng::seed_from_u64(1231275789u64);

    for _ in 0..1000 {
        let mut cs = Circuit::new();
        let mut v = (0..8).map(|_| cs.allocate(Mode::Constant, rng.gen())).collect::<Vec<_>>();
        v.reverse();

        let b = Integer::from_bits_be(IntegerType::I8, &v).expect("failed to create Int8 from bits.");

        for (i, bit_gadget) in b.to_bits_be().iter().rev().enumerate() {
            assert!(bit_gadget.mode == Mode::Constant);
            assert!(bit_gadget.value == ((native(&b) >> i) & 1 == 1));
        }
        assert_eq!(b.cached(), Some(b.to_native()));

        let expected_to_be_same = b.to_bits_be();

        for x in v.iter().zip(expected_to_be_same.iter()) {
            assert!(x.0.mode == Mode::Constant && x.1.mode == Mode::Constant);
            assert_eq!(x.0.value, x.1.value);
        }

        assert!(cs.is_satisfied());
    }
}

#[test]
fn test_int8_from_bits_le() {
    let mut rng = XorShiftRng::seed_from_u64(1231275789u64);

    for _ in 0..1000 {
        let mut cs = Circuit::new();
        let v = (0..8).map(|_| cs.allocate(Mode::Constant, rng.gen())).collect::<Vec<_>>();

        let b = Integer::from_bits_le(IntegerType::I8, &v).expect("failed to create Int8 from bits.");

        for (i, bit_gadget) in b.bits().iter().enumerate() {
            assert!(bit_gadget.mode == Mode::Constant);
            assert!(bit_gadget.value == ((native(&b) >> i) & 1 == 1));
        }
        assert_eq!(b.cached(), Some(b.to_native()));

        let expected_to_be_same = b.to_bits_le();

        for x in v.iter().zip(expected_to_be_same.iter()) {
            assert!(x.0.mode == Mode::Constant && x.1.mode == Mode::Constant);
            assert_eq!(x.0.value, x.1.value);
        }

        assert!(cs.is_satisfied());
    }
}

#[test]
fn test_int8_from_bytes_be() {
    let mut rng = XorShiftRng::seed_from_u64(1231275789u64);

    for _ in 0..1000 {
        let expected: i8 = rng.gen();
        let mut cs = Circuit::new();
        let v: Vec<Integer> = expected.to_be_bytes().iter().map(|byte| constant_byte(&mut cs, *byte)).collect();

        let b = Integer::from_bytes_be(IntegerType::I8, &v).expect("failed to create a Int8 from a byte");

        // check bits
        for (i, bit_gadget) in b.bits().iter().enumerate() {
            assert!(bit_gadget.mode == Mode::Constant);
            assert!(bit_gadget.value == ((native(&b) >> i) & 1 == 1));
        }
        assert_eq!(native(&b), expected);

        assert!(cs.is_satisfied());
    }
}

#[test]
fn test_int8_from_bytes_le() {
    let mut rng = XorShiftRng::seed_from_u64(1231275789u64);

    for _ in 0..1000 {
        let expected: i8 = rng.gen();
        let mut cs = Circuit::new();
        let v: Vec<Integer> = expected.to_le_bytes().iter().map(|byte| constant_byte(&mut cs, *byte)).collect();

        let b = Integer::from_bytes_le(IntegerType::I8, &v).expect("failed to create a Int8 from a byte");

        // check bits
        for (i, bit_gadget) in b.bits().iter().enumerate() {
            assert!(bit_gadget.mode == Mode::Constant);
            assert!(bit_gadget.value == ((native(&b) >> i) & 1 == 1));
        }
        assert_eq!(native(&b), expected);

        assert!(cs.is_satisfied());
    }
}

#[test]
fn test_int8_to_bits_full() {
    let mut cs = Circuit::new();
    let byte_val = 0b01110001;
    let byte = witness(&mut cs, byte_val);

    let mut bits_be = byte.to_bits_be();
    let i8_int_from_be = Integer::from_bits_be(IntegerType::I8, &bits_be).expect("failed to get i8 from bits be");

    let bits_le = byte.to_bits_le();
    let i8_int_from_le = Integer::from_bits_le(IntegerType::I8, &bits_le).expect("failed to get i8 from bits le");

    bits_be.reverse();
    assert_eq!(bits_be, bits_le);
    assert_eq!(byte, i8_int_from_be);
    assert_eq!(byte, i8_int_from_le);
    assert!(cs.is_satisfied());
}

#[test]
fn test_int8_to_bytes_full() {
    let mut cs = Circuit::new();
    let byte_val = 0b01110001;
    let byte = witness(&mut cs, byte_val);

    let mut bytes_be = byte.to_bytes_be();
    let i8_int_from_be = Integer::from_bytes_be(IntegerType::I8, &bytes_be).expect("failed to get i8 from bytes be");

    let bytes_le = byte.to_bytes_le();
    let i8_int_from_le = Integer::from_bytes_le(IntegerType::I8, &bytes_le).expect("failed to get i8 from bytes le");

    bytes_be.reverse();
    assert_eq!(bytes_be, bytes_le);
    assert_eq!(byte, i8_int_from_be);
    assert_eq!(byte, i8_int_from_le);
    assert!(cs.is_satisfied());
}

#[test]
fn test_int8_add() {
    let mut rng = XorShiftRng::seed_from_u64(1231275789u64);

    for _ in 0..1000 {
        let mut cs = Circuit::new();

        let a: i8 = rng.gen();
        let b: i8 = rng.gen();

        let expected = match a.checked_add(b) {
            Some(valid) => valid,
            None => continue,
        };

        let a_bit = witness(&mut cs, a);
        let b_bit = witness(&mut cs, b);

        let r = a_bit.add(&mut cs, &b_bit).unwrap();

        assert!(cs.is_satisfied());

        assert!(native(&r) == expected);

        let first = r.bits()[0];
        check_all_allocated_bits(expected, r);

        // Flip a bit_gadget and see if the addition constraint still works
        flip(&mut cs, &first);

        assert!(!cs.is_satisfied());
    }
}

#[test]
fn test_int8_sub_constants() {
    let mut rng = XorShiftRng::seed_from_u64(1231275789u64);

    for _ in 0..1000 {
        let mut cs = Circuit::new();

        let a: i8 = rng.gen();
        let b: i8 = rng.gen();

        if b.checked_neg().is_none() {
            // negate with overflows will fail: -128
            continue;
        }
        let expected = match a.checked_sub(b) {
            // subtract with overflow will fail: -0
            Some(valid) => valid,
            None => continue,
        };

        let a_bit = known(&mut cs, a);
        let b_bit = known(&mut cs, b);

        let r = a_bit.subtract(&mut cs, &b_bit).unwrap();

        assert!(r.cached() == Some(Native::Signed(expected as i128)));

        check_all_constant_bits(expected, r);
    }
}

#[test]
fn test_int8_sub() {
    let mut rng = XorShiftRng::seed_from_u64(1231275789u64);

    for _ in 0..1000 {
        let mut cs = Circuit::new();

        let a: i8 = rng.gen();
        let b: i8 = rng.gen();

        if b.checked_neg().is_none() {
            // negate with overflows will fail: -128
            continue;
        }
        let expected = match a.checked_sub(b) {
            // subtract with overflow will fail: -0
            Some(valid) => valid,
            None => continue,
        };

        let a_bit = witness(&mut cs, a);
        let b_bit = witness(&mut cs, b);

        let r = a_bit.subtract(&mut cs, &b_bit).unwrap();

        assert!(cs.is_satisfied());

        assert!(native(&r) == expected);

        let first = r.bits()[0];
        check_all_allocated_bits(expected, r);

        // Flip a bit_gadget and see if the subtraction constraint still works
        flip(&mut cs, &first);

        assert!(!cs.is_satisfied());
    }
}

#[test]
fn test_int8_mul_constants() {
    let mut rng = XorShiftRng::seed_from_u64(1231275789u64);

    for _ in 0..1000 {
        let mut cs = Circuit::new();

        let a: i8 = rng.gen();
        let b: i8 = rng.gen();

        let expected = match a.checked_mul(b) {
            Some(valid) => valid,
            None => continue,
        };

        let a_bit = known(&mut cs, a);
        let b_bit = known(&mut cs, b);

        let r = a_bit.multiply(&mut cs, &b_bit).unwrap();

        assert!(r.cached() == Some(Native::Signed(expected as i128)));

        check_all_constant_bits(expected, r);
    }
}

#[test]
fn test_int8_mul() {
    let mut rng = XorShiftRng::seed_from_u64(1231275789u64);

    for _ in 0..1000 {
        let mut cs = Circuit::new();

        let a: i8 = rng.gen();
        let b: i8 = rng.gen();

        let expected = match a.checked_mul(b) {
            Some(valid) => valid,
            None => continue,
        };

        let a_bit = witness(&mut cs, a);
        let b_bit = witness(&mut cs, b);

        let r = a_bit.multiply(&mut cs, &b_bit).unwrap();

        assert!(cs.is_satisfied());

        assert!(native(&r) == expected);

        let first = r.bits()[0];
        check_all_allocated_bits(expected, r);

        // Flip a bit_gadget and see if the multiplication constraint still works
        flip(&mut cs, &first);

        assert!(!cs.is_satisfied());
    }
}

#[test]
fn test_int8_div_constants() {
    let mut rng = XorShiftRng::seed_from_u64(1231275789u64);

    for _ in 0..1000 {
        let mut cs = Circuit::new();

        let a: i8 = rng.gen();
        let b: i8 = rng.gen();

        if a.checked_neg().is_none() {
            return;
        }

        let expected = match a.checked_div(b) {
            Some(valid) => valid,
            None => return,
        };

        let a_bit = known(&mut cs, a);
        let b_bit = known(&mut cs, b);

        let r = a_bit.divide(&mut cs, &b_bit).unwrap();

        assert!(r.cached() == Some(Native::Signed(expected as i128)));

        check_all_constant_bits(expected, r);
    }
}

#[test]
fn test_int8_div() {
    let mut rng = XorShiftRng::seed_from_u64(1231275789u64);

    for _ in 0..100 {
        let mut cs = Circuit::new();

        let a: i8 = rng.gen();
        let b: i8 = rng.gen();

        if a.checked_neg().is_none() {
            continue;
        }

        let expected = match a.checked_div(b) {
            Some(valid) => valid,
            None => return,
        };

        let a_bit = witness(&mut cs, a);
        let b_bit = witness(&mut cs, b);

        let r = a_bit.divide(&mut cs, &b_bit).unwrap();

        assert!(cs.is_satisfied());

        assert!(native(&r) == expected);

        check_all_allocated_bits(expected, r);
    }
}

#[test]
fn test_int8_div_corner_case_1() {
    let mut cs = Circuit::new();

    let a: i8 = i8::MIN;
    let b: i8 = 2;

    let expected = match a.checked_div(b) {
        Some(valid) => valid,
        None => return,
    };

    let a_bit = witness(&mut cs, a);
    let b_bit = witness(&mut cs, b);

    let r = a_bit.divide(&mut cs, &b_bit).unwrap();

    assert!(cs.is_satisfied());
    assert_eq!(native(&r), expected);
    check_all_allocated_bits(expected, r);
}

#[test]
#[should_panic]
fn test_int8_div_corner_case_2() {
    let mut cs = Circuit::new();

    let a: i8 = i8::MIN;
    let b: i8 = -1;

    let a_bit = witness(&mut cs, a);
    let b_bit = witness(&mut cs, b);

    let _ = a_bit.divide(&mut cs, &b_bit).unwrap();
}

#[test]
fn test_int8_div_setup_mode() {
    let mut cs = Circuit::new();

    let a: i8 = 1i8;
    let b: i8 = 2i8;

    let a_bit = witness(&mut cs, a);
    let b_bit = witness(&mut cs, b);

    let _ = a_bit.divide(&mut cs, &b_bit).unwrap();
}

#[test]
fn test_int8_pow_constants() {
    let mut rng = XorShiftRng::seed_from_u64(1231275789u64);

    for _ in 0..10 {
        let mut cs = Circuit::new();

        let a: i8 = rng.gen_range(-12..12);
        let b: i8 = rng.gen_range(-4..4);

        let expected = match a.checked_pow(b as u32) {
            Some(valid) => valid,
            None => continue,
        };

        let a_bit = known(&mut cs, a);
        let b_bit = known(&mut cs, b);

        if b < 0 {
            // A negative exponent halts, whatever the base.
            assert!(a_bit.power(&mut cs, &b_bit).is_err());
            continue;
        }

        let r = a_bit.power(&mut cs, &b_bit).unwrap();

        assert!(r.cached() == Some(Native::Signed(expected as i128)));

        check_all_constant_bits(expected, r);
    }
}

#[test]
fn test_int8_pow() {
    let mut rng = XorShiftRng::seed_from_u64(1231275789u64);

    for _ in 0..10 {
        let mut cs = Circuit::new();

        let a: i8 = rng.gen_range(-12..12);
        let b: i8 = rng.gen_range(-4..4);

        let expected = match a.checked_pow(b as u32) {
            Some(valid) => valid,
            None => continue,
        };

        let a_bit = witness(&mut cs, a);
        let b_bit = witness(&mut cs, b);

        if b < 0 {
            // A negative exponent halts, whatever the base.
            assert!(a_bit.power(&mut cs, &b_bit).is_err());
            continue;
        }

        let r = a_bit.power(&mut cs, &b_bit).unwrap();

        assert!(cs.is_satisfied());

        assert!(native(&r) == expected);

        let first = r.bits()[0];
        check_all_allocated_bits(expected, r);

        // Flip a bit_gadget and see if the exponentiation constraint still works
        flip(&mut cs, &first);

        assert!(!cs.is_satisfied());
    }
}
