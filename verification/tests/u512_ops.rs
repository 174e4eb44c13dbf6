use std::cmp::Ordering;

use bigint512::u512::U512;

#[test]
fn basic() {
    let zero_1 = U512::zero();
    let zero_2 = U512::from_bytes_be(vec![
        0x00, 0x00, 0x00, 0x00, 0x00, 0x00, 0x00, 0x00, 0x00, 0x00, 0x00, 0x00, 0x00, 0x00, 0x00,
        0x00, 0x00, 0x00, 0x00, 0x00, 0x00, 0x00, 0x00, 0x00, 0x00, 0x00, 0x00, 0x00, 0x00, 0x00,
        0x00, 0x00,
    ]);

    let five_1 = U512::from_u64(5);
    let five_2 = U512::from_bytes_be(vec![
        0x00, 0x00, 0x00, 0x00, 0x00, 0x00, 0x00, 0x00, 0x00, 0x00, 0x00, 0x00, 0x00, 0x00, 0x00,
        0x00, 0x00, 0x00, 0x00, 0x00, 0x00, 0x00, 0x00, 0x00, 0x00, 0x00, 0x00, 0x00, 0x00, 0x00,
        0x00, 0x05,
    ]);

    assert_eq!(zero_1, zero_2);
    assert_eq!(five_1, five_2);
}

#[test]
fn addition() {
    let x = U512::from_u64(10);
    let y = U512::from_u64(12);
    assert_eq!(x.add(&y), U512::from_u64(22));

    let x = U512::from_bytes_be(vec![
        0x01, 0xff, 0x01, 0xff, 0x00, 0x00, 0x00, 0x00, 0xff, 0x00, 0x00, 0x00, 0x00, 0x00, 0x00,
        0x00, 0x00, 0x00, 0xff, 0xfe, 0xff, 0xff, 0x00, 0x00, 0x00, 0x00, 0x00, 0x00, 0xff, 0x00,
        0x00, 0xff,
    ]);
    let y = U512::from_bytes_be(vec![
        0x00, 0x01, 0xff, 0x00, 0x00, 0x00, 0x00, 0x00, 0x01, 0x00, 0x00, 0x00, 0x00, 0x00, 0x00,
        0x00, 0x00, 0x00, 0x00, 0x01, 0x00, 0xab, 0x00, 0x00, 0x00, 0x00, 0x00, 0x01, 0x02, 0x00,
        0x01, 0x18,
    ]);
    let expected = U512::from_bytes_be(vec![
        0x02, 0x01, 0x00, 0xff, 0x00, 0x00, 0x00, 0x01, 0x00, 0x00, 0x00, 0x00, 0x00, 0x00, 0x00,
        0x00, 0x00, 0x01, 0x00, 0x00, 0x00, 0xaa, 0x00, 0x00, 0x00, 0x00, 0x00, 0x02, 0x01, 0x00,
        0x02, 0x17,
    ]);
    let ans = x.add(&y);
    assert_eq!(ans, expected);

    let x = U512::from_u64(187236152);
    let y = U512::from_u64(187236152);
    assert_eq!(x, y.add(&U512::zero()));
}

#[test]
fn subtraction() {
    let x = U512::from_u64(10);
    let y = U512::from_u64(12);
    assert_eq!(y.sub(&x), U512::from_u64(2));

    let x = U512::from_bytes_be(vec![
        0x02, 0x01, 0x00, 0xff, 0x00, 0x00, 0x00, 0x00, 0x00, 0x00, 0x00, 0x00, 0x00, 0x00, 0x00,
        0x00, 0x00, 0x01, 0x00, 0x00, 0x00, 0xaa, 0x00, 0x00, 0x00, 0x00, 0x00, 0x02, 0x01, 0x00,
        0x02, 0x17,
    ]);
    let y = U512::from_bytes_be(vec![
        0x00, 0x01, 0xff, 0x00, 0x00, 0x00, 0x00, 0x00, 0x00, 0x00, 0x00, 0x00, 0x00, 0x00, 0x00,
        0x00, 0x00, 0x00, 0x00, 0x01, 0x00, 0xab, 0x00, 0x00, 0x00, 0x00, 0x00, 0x01, 0x02, 0x00,
        0x01, 0x18,
    ]);
    let expected = U512::from_bytes_be(vec![
        0x01, 0xff, 0x01, 0xff, 0x00, 0x00, 0x00, 0x00, 0x00, 0x00, 0x00, 0x00, 0x00, 0x00, 0x00,
        0x00, 0x00, 0x00, 0xff, 0xfe, 0xff, 0xff, 0x00, 0x00, 0x00, 0x00, 0x00, 0x00, 0xff, 0x00,
        0x00, 0xff,
    ]);
    let ans = x.sub(&y);
    assert_eq!(ans, expected);

    let x = U512::from_u64(7192478999);
    let y = U512::from_u64(7192478999);
    assert_eq!(x, y.sub(&U512::zero()));
}

#[test]
fn multiplication() {
    let x = U512::from_u64(20);
    let y = U512::from_u64(16);
    assert_eq!(x.mul(&y), U512::from_u64(20 * 16));

    let x = U512::from_bytes_be(vec![
        0x00, 0x00, 0x00, 0x00, 0x00, 0x00, 0x00, 0x00, 0x00, 0x00, 0x00, 0x00, 0x00, 0x00, 0x00,
        0x00, 0x00, 0x00, 0x00, 0x13, 0x2f, 0x40, 0xb7, 0x63, 0x50, 0xe4, 0x7c, 0xcd, 0x9a, 0x5f,
        0x4e, 0xa2,
    ]);
    let y = U512::from_bytes_be(vec![
        0x00, 0x00, 0x00, 0x00, 0x00, 0x00, 0x00, 0x00, 0x00, 0x00, 0x00, 0x00, 0x00, 0x00, 0x00,
        0x00, 0x00, 0x00, 0x00, 0x6f, 0x6c, 0x08, 0xeb, 0xf4, 0x47, 0x5f, 0x5b, 0xdb, 0x28, 0xc7,
        0x8d, 0x29,
    ]);
    let expected = U512::from_bytes_be(vec![
        0x00, 0x00, 0x00, 0x00, 0x00, 0x00, 0x08, 0x59, 0x95, 0xa9, 0xfa, 0x22, 0x7f, 0x94, 0x5c,
        0xf4, 0x80, 0x65, 0xd0, 0x3f, 0x78, 0x3c, 0xe1, 0xea, 0xfd, 0xe0, 0xf9, 0xe9, 0xa7, 0x80,
        0xd1, 0xf2,
    ]);
    assert_eq!(x.mul(&y), expected);

    let x = U512::from_u64(7192478999);
    let y = U512::from_u64(7192478999);
    assert_eq!(x, y.mul(&U512::from_u64(1)));
}

#[test]
fn remainder() {
    let x = U512::from_u64(13);
    let y = U512::from_u64(7);
    assert_eq!(y.rem(&x), U512::from_u64(7));

    for i in 0..60 {
        let x = U512::from_u64(13 + 7 * i);
        let y = U512::from_u64(7);
        assert_eq!(x.rem(&y), U512::from_u64(6));
    }

    let x = U512::from_bytes_be(vec![
        0x00, 0x00, 0x00, 0x00, 0x00, 0x00, 0x00, 0x00, 0xbc, 0x86, 0x00, 0x8f, 0xff, 0x85, 0x3f,
        0x8e, 0xc6, 0x0a, 0x0b, 0xb4, 0xd0, 0x36, 0x26, 0xfc, 0x44, 0x7c, 0xf3, 0x2a, 0x45, 0x2c,
        0xd0, 0x1c,
    ]);

    let y = U512::from_bytes_be(vec![
        0x1b, 0x50, 0xdd, 0xa8, 0x70, 0x14, 0xa2, 0x7d, 0x4b, 0xd4, 0xe8, 0xcb, 0x1d, 0xfa, 0xe7,
        0xfc, 0xbe, 0x5a, 0x68, 0x53, 0x24, 0x01, 0x92, 0xc1, 0x55, 0x22, 0xbc, 0x55, 0x2e, 0xc5,
        0xc8, 0x9a,
    ]);

    let expected = U512::from_bytes_be(vec![
        0x00, 0x00, 0x00, 0x00, 0x00, 0x00, 0x00, 0x00, 0x1b, 0x55, 0x59, 0x52, 0xf3, 0x27, 0x1f,
        0xb2, 0xb7, 0xaa, 0x52, 0x3a, 0x8d, 0x33, 0x0c, 0x7d, 0x8d, 0xa1, 0xcd, 0xb1, 0x8f, 0x80,
        0x29, 0x5e,
    ]);
    assert_eq!(y.rem(&x), expected);
}

#[test]
fn division() {
    for i in 0..45 {
        for j in 0..15 {
            let x = U512::from_u64(i);
            let y = U512::from_u64(j + 1);
            assert_eq!(x.div(&y), U512::from_u64(i / (j + 1)));
        }
    }

    let x = U512::from_bytes_be(vec![
        0x1b, 0xcc, 0x2c, 0x7b, 0x2c, 0x29, 0x41, 0x9d, 0x16, 0xb8, 0x07, 0xcf, 0x3c, 0x41, 0x44,
        0xba, 0x5f, 0x4a, 0x89, 0xf6, 0xd0, 0x34, 0xdb, 0xc7, 0x21, 0x0a, 0x23, 0x28, 0xac, 0x0e,
        0x53, 0x04,
    ]);

    let y = U512::from_bytes_be(vec![
        0x00, 0x00, 0x00, 0x00, 0x00, 0x00, 0x00, 0x00, 0x00, 0x00, 0x00, 0x00, 0x00, 0x1c, 0xdc,
        0xda, 0x32, 0xcf, 0x64, 0x03, 0xd0, 0xea, 0xe4, 0x85, 0x1a, 0x80, 0x29, 0x3c, 0xb2, 0x4f,
        0x32, 0x3f,
    ]);

    let expected = U512::from_bytes_be(vec![
        0x00, 0x00, 0x00, 0x00, 0x00, 0x00, 0x00, 0x00, 0x00, 0x00, 0x00, 0x00, 0x00, 0x00, 0x00,
        0x00, 0x00, 0x00, 0x00, 0xf6, 0x8d, 0x74, 0xc3, 0xf6, 0x77, 0x71, 0xf1, 0x3d, 0x16, 0x46,
        0x9e, 0x17,
    ]);
    assert_eq!(x.div(&y), expected);
}

#[test]
fn shl() {
    let x = U512::from_u64(1);
    let y = U512::from_u64(64);
    assert_eq!(x.shl(6), y);

    let x = U512::from_bytes_be(vec![
        0x1b, 0xcc, 0x2c, 0x7b, 0x2c, 0x29, 0x41, 0x9d, 0x00, 0x00, 0x00, 0x00, 0x00, 0x00, 0x00,
        0x00, 0x00, 0x00, 0x00, 0x00, 0x00, 0x00, 0x00, 0x00, 0x21, 0x0a, 0x23, 0x28, 0xac, 0x0e,
        0x53, 0x04,
    ]);

    let y = U512::from_bytes_be(vec![
        0x00, 0x00, 0x00, 0x00, 0x00, 0x00, 0x00, 0x1b, 0xcc, 0x2c, 0x7b, 0x2c, 0x29, 0x41, 0x9d,
        0x00, 0x00, 0x00, 0x00, 0x00, 0x00, 0x00, 0x00, 0x00, 0x00, 0x00, 0x00, 0x00, 0x00, 0x00,
        0x00, 0x21, 0x0a, 0x23, 0x28, 0xac, 0x0e, 0x53, 0x04, 0x00, 0x00, 0x00, 0x00, 0x00, 0x00,
        0x00, 0x00, 0x00,
    ]);

    assert_eq!(x.shl(72), y);
}

#[test]
fn hex_formatting_is_fixed_width_most_significant_first() {
    assert_eq!(U512::zero().to_hex(), format!("0x{}", "0".repeat(128)));
    assert_eq!(
        U512::from_u64(0x1234_5678_9abc_def0).to_hex(),
        format!("0x{}123456789abcdef0", "0".repeat(112))
    );
    let x = U512::from_bytes_be(vec![
        0xde, 0xad, 0xbe, 0xef, 0x01, 0x02, 0x03, 0x04, 0x05, 0x06, 0x07, 0x08, 0x09, 0x0a, 0x0b,
        0x0c,
    ]);
    assert_eq!(
        x.to_hex(),
        format!("0x{}deadbeef0102030405060708090a0b0c", "0".repeat(96))
    );
}

#[test]
fn is_zero_looks_at_every_limb() {
    assert!(U512::zero().is_zero());
    assert!(!U512::from_u64(1).is_zero());
    // A value living only in the topmost limbs is not zero.
    let mut bytes = vec![0u8; 64];
    bytes[0] = 1;
    assert!(!U512::from_bytes_be(bytes).is_zero());
}

#[test]
fn compare_orders_by_value() {
    let small = U512::from_u64(7);
    let mut bytes = vec![0u8; 64];
    bytes[3] = 9;
    let big = U512::from_bytes_be(bytes);
    assert_eq!(small.compare(&big), Ordering::Less);
    assert_eq!(big.compare(&small), Ordering::Greater);
    assert_eq!(small.compare(&U512::from_u64(7)), Ordering::Equal);
}

#[test]
fn wrapping_addition_and_subtraction_are_modular() {
    // The all-ones value plus one wraps to zero.
    let all_ones = U512::from_bytes_be(vec![0xff; 64]);
    let one = U512::from_u64(1);
    assert!(all_ones.add(&one).is_zero());
    // Zero minus one wraps to the all-ones value.
    assert_eq!(U512::zero().sub(&one), all_ones);
}

#[test]
fn empty_byte_input_is_zero() {
    assert_eq!(U512::from_bytes_be(vec![]), U512::zero());
}

#[test]
fn division_by_an_equal_value() {
    let x = U512::from_bytes_be(vec![0xff; 64]);
    let y = U512::from_bytes_be(vec![0xff; 64]);
    assert_eq!(x.div(&y), U512::from_u64(1));
    assert!(x.rem(&y).is_zero());
}

#[test]
fn ordering_operators_follow_values() {
    let a = U512::from_u64(3);
    let b = U512::from_u64(1000);
    assert!(a < b);
    assert!(b > a);
    assert!(a <= U512::from_u64(3));
    assert!(a >= U512::from_u64(3));
    assert!(!(b < a));
}
