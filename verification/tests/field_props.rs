use zigzag::field::{fr_add, fr_sub, fr_valid};

fn le32(n: u64) -> Vec<u8> {
    let mut v = vec![0u8; 32];
    v[..8].copy_from_slice(&n.to_le_bytes());
    v
}

#[test]
fn add_then_sub_recovers_value() {
    let v = le32(123456789);
    let k = le32(987654321);
    let enc = fr_add(&v, &k);
    let dec = fr_sub(&enc, &k);
    assert_eq!(dec, v);
    assert_ne!(enc, v);
}

#[test]
fn small_addition_matches_integers() {
    let a = le32(5);
    let b = le32(7);
    assert_eq!(fr_add(&a, &b), le32(12));
}

#[test]
fn addition_wraps_at_the_modulus() {
    // r - 1 plus 2 wraps to 1
    let r_minus_1: Vec<u8> = vec![
        0x00, 0x00, 0x00, 0x00, 0xff, 0xff, 0xff, 0xff, 0xfe, 0x5b, 0xfe, 0xff, 0x02, 0xa4, 0xbd,
        0x53, 0x05, 0xd8, 0xa1, 0x09, 0x08, 0xd8, 0x39, 0x33, 0x48, 0x7d, 0x9d, 0x29, 0x53, 0xa7,
        0xed, 0x73,
    ];
    assert!(fr_valid(&r_minus_1));
    let two = le32(2);
    assert_eq!(fr_add(&r_minus_1, &two), le32(1));
}

#[test]
fn values_at_or_past_the_modulus_are_invalid() {
    let r: Vec<u8> = vec![
        0x01, 0x00, 0x00, 0x00, 0xff, 0xff, 0xff, 0xff, 0xfe, 0x5b, 0xfe, 0xff, 0x02, 0xa4, 0xbd,
        0x53, 0x05, 0xd8, 0xa1, 0x09, 0x08, 0xd8, 0x39, 0x33, 0x48, 0x7d, 0x9d, 0x29, 0x53, 0xa7,
        0xed, 0x73,
    ];
    assert!(!fr_valid(&r));
    let all_ones = vec![0xffu8; 32];
    assert!(!fr_valid(&all_ones));
    assert!(fr_valid(&le32(0)));
}

#[test]
fn reencoding_is_not_idempotent() {
    let v = le32(42);
    let k = le32(9001);
    let once = fr_add(&v, &k);
    let twice = fr_add(&once, &k);
    assert_ne!(twice, once);
    assert_ne!(once, v);
}
