use zkp_chaum_pedersen::BigNat;

#[test]
fn from_bytes_be_reads_big_endian() {
    assert_eq!(BigNat::from_bytes_be(&[4, 101]), BigNat::from_u32(1125));
    assert_eq!(BigNat::from_bytes_be(b"A"), BigNat::from_u32(65));
    assert_eq!(BigNat::from_bytes_be(b"AA"), BigNat::from_u32(16705));
    assert_eq!(BigNat::from_bytes_be(b"AB"), BigNat::from_u32(16706));
    assert_eq!(
        BigNat::from_bytes_be(&[0x12, 0x34, 0x56, 0x78]),
        BigNat::from_u32(0x1234_5678)
    );
}

#[test]
fn from_bytes_be_accepts_leading_zeros_and_nothing() {
    assert_eq!(BigNat::from_bytes_be(&[]), BigNat::from_u32(0));
    assert_eq!(BigNat::from_bytes_be(&[0]), BigNat::from_u32(0));
    assert_eq!(BigNat::from_bytes_be(&[0, 0, 0]), BigNat::from_u32(0));
    assert_eq!(BigNat::from_bytes_be(&[0, 1]), BigNat::from_u32(1));
    assert_eq!(BigNat::from_bytes_be(&[0, 0, 1, 0]), BigNat::from_u32(256));
}

#[test]
fn to_bytes_be_is_minimal() {
    assert_eq!(BigNat::from_u32(0).to_bytes_be(), vec![0]);
    assert_eq!(BigNat::from_u32(1).to_bytes_be(), vec![1]);
    assert_eq!(BigNat::from_u32(255).to_bytes_be(), vec![255]);
    assert_eq!(BigNat::from_u32(256).to_bytes_be(), vec![1, 0]);
    assert_eq!(BigNat::from_u32(1125).to_bytes_be(), vec![4, 101]);
    assert_eq!(BigNat::from_u32(u32::MAX).to_bytes_be(), vec![255, 255, 255, 255]);
    assert_eq!(BigNat::from_bytes_be(&[0, 0, 7, 0]).to_bytes_be(), vec![7, 0]);
}

#[test]
fn minimal_bytes_round_trip() {
    let samples: [&[u8]; 6] = [
        &[0],
        &[1],
        &[200],
        &[1, 0],
        &[255, 0, 0, 0, 0, 0, 0, 0, 0, 1],
        &[9, 8, 7, 6, 5, 4, 3, 2, 1, 0, 0, 0, 0, 0, 0, 0, 0, 0, 0, 0, 1],
    ];
    for bytes in samples {
        assert_eq!(BigNat::from_bytes_be(bytes).to_bytes_be(), bytes.to_vec());
    }
}

#[test]
fn numbers_round_trip() {
    for value in [0u32, 1, 22, 255, 256, 65535, 65536, 1 << 24, u32::MAX] {
        let number = BigNat::from_u32(value);
        assert_eq!(BigNat::from_bytes_be(&number.to_bytes_be()), number);
    }
}

#[test]
fn bytes_with_a_leading_zero_do_not_come_back() {
    assert_eq!(BigNat::from_bytes_be(&[0, 1]).to_bytes_be(), vec![1]);
    assert_eq!(BigNat::from_bytes_be(&[]).to_bytes_be(), vec![0]);
}

#[test]
fn from_u32_exact_bytes() {
    assert_eq!(BigNat::from_u32(0x0102_0304).to_bytes_be(), vec![1, 2, 3, 4]);
    assert_eq!(BigNat::from_u32(0x0002_0304).to_bytes_be(), vec![2, 3, 4]);
    assert_eq!(BigNat::from_u32(0x0000_0304).to_bytes_be(), vec![3, 4]);
    assert_eq!(BigNat::from_u32(0x0100_0000).to_bytes_be(), vec![1, 0, 0, 0]);
}

#[test]
fn clone_is_equal() {
    let number = BigNat::from_bytes_be(&[1, 2, 3, 4, 5, 6, 7, 8, 9]);
    assert_eq!(number.clone(), number);
    assert!(number.clone().equals(&number));
}

#[test]
fn is_zero_tells_zero() {
    assert!(BigNat::from_u32(0).is_zero());
    assert!(BigNat::from_bytes_be(&[]).is_zero());
    assert!(BigNat::from_bytes_be(&[0, 0]).is_zero());
    assert!(!BigNat::from_u32(1).is_zero());
    assert!(!BigNat::from_u32(256).is_zero());
}

#[test]
fn equals_compares_numbers() {
    assert!(BigNat::from_u32(77).equals(&BigNat::from_bytes_be(&[0, 77])));
    assert!(!BigNat::from_u32(77).equals(&BigNat::from_u32(78)));
    assert!(!BigNat::from_u32(1).equals(&BigNat::from_u32(256)));
}

#[test]
fn ge_compares_numbers() {
    assert!(BigNat::from_u32(5).ge(&BigNat::from_u32(5)));
    assert!(BigNat::from_u32(6).ge(&BigNat::from_u32(5)));
    assert!(!BigNat::from_u32(5).ge(&BigNat::from_u32(6)));
    assert!(BigNat::from_u32(256).ge(&BigNat::from_u32(255)));
    assert!(!BigNat::from_u32(255).ge(&BigNat::from_u32(256)));
    assert!(BigNat::from_bytes_be(&[1, 0, 0, 0, 0, 0, 0, 0, 0]).ge(&BigNat::from_u32(u32::MAX)));
}

#[test]
fn mul_multiplies() {
    assert_eq!(BigNat::from_u32(6).mul(&BigNat::from_u32(7)), BigNat::from_u32(42));
    assert_eq!(BigNat::from_u32(0).mul(&BigNat::from_u32(7)), BigNat::from_u32(0));
    assert_eq!(
        BigNat::from_u32(u32::MAX).mul(&BigNat::from_u32(u32::MAX)),
        BigNat::from_bytes_be(&[0xff, 0xff, 0xff, 0xfe, 0, 0, 0, 1])
    );
}

#[test]
fn sub_subtracts() {
    assert_eq!(BigNat::from_u32(50).sub(&BigNat::from_u32(8)), BigNat::from_u32(42));
    assert_eq!(BigNat::from_u32(8).sub(&BigNat::from_u32(8)), BigNat::from_u32(0));
    assert_eq!(BigNat::from_u32(256).sub(&BigNat::from_u32(1)), BigNat::from_u32(255));
}

#[test]
fn modpow_exact_values() {
    assert_eq!(
        BigNat::from_u32(4).modpow(&BigNat::from_u32(6), &BigNat::from_u32(23)),
        BigNat::from_u32(2)
    );
    assert_eq!(
        BigNat::from_u32(2).modpow(&BigNat::from_u32(100), &BigNat::from_u32(1_000_000_007)),
        BigNat::from_u32(976_371_285)
    );
    assert_eq!(
        BigNat::from_u32(10).modpow(&BigNat::from_u32(3), &BigNat::from_u32(6)),
        BigNat::from_u32(4)
    );
}

#[test]
fn random_below_stays_below() {
    let bound = BigNat::from_bytes_be(&[1, 0, 0, 0, 0, 0, 0, 0, 0, 0]);
    for _ in 0..50 {
        let r = BigNat::random_below(&bound);
        assert!(!r.ge(&bound));
    }
}
