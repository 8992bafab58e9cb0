use cs220::bigint::BigInt;

#[test]
fn test_add_small() {
    let r = BigInt::new(5).add(BigInt::new(3));
    assert_eq!(r.carrier, vec![8u32]);
    assert_eq!(r.to_hex_string(), "00000008");
}

#[test]
fn test_sub_small_negative_result() {
    let r = BigInt::new(3).sub(BigInt::new(5));
    assert_eq!(r.carrier, vec![0xFFFF_FFFEu32]);
}

#[test]
fn test_negative_representation_hex() {
    let b = BigInt::new_large(vec![0xFFFF_FFFA, 0xFFFF_FFF8]);
    assert_eq!(b.carrier, vec![0xFFFF_FFFA, 0xFFFF_FFF8]);
    assert_eq!(b.to_hex_string(), "fffffffafffffff8");
}

#[test]
fn test_overflow_grows_one_word() {
    let r = BigInt::new_large(vec![0x7FFF_FFFF]).add(BigInt::new(1));
    assert_eq!(r.carrier, vec![0x0000_0000, 0x8000_0000]);
    assert_eq!(r.to_hex_string(), "0000000080000000");
}

#[test]
fn test_negative_overflow_grows_one_word() {
    let a = BigInt::new_large(vec![0x8000_0000]);
    let r = a.clone().add(a);
    assert_eq!(r.carrier, vec![0xFFFF_FFFF, 0x0000_0000]);
}

#[test]
fn test_truncate_redundant_zero_words() {
    assert_eq!(BigInt::new_large(vec![0, 0]).carrier, vec![0u32]);
    assert_eq!(BigInt::new_large(vec![0, 0, 17]).carrier, vec![17u32]);
}

#[test]
fn test_truncate_redundant_sign_words() {
    assert_eq!(
        BigInt::new_large(vec![0xFFFF_FFFF, 0xFFFF_FFFF]).carrier,
        vec![0xFFFF_FFFFu32]
    );
    assert_eq!(
        BigInt::new_large(vec![0xFFFF_FFFF, 0xFFFF_FFFF, 5]).carrier,
        vec![0xFFFF_FFFF, 5]
    );
}

#[test]
fn test_truncate_keeps_needed_sign_word() {
    assert_eq!(
        BigInt::new_large(vec![0x0000_0000, 0x8000_0000]).carrier,
        vec![0x0000_0000, 0x8000_0000]
    );
    assert_eq!(
        BigInt::new_large(vec![0xFFFF_FFFF, 0x7FFF_FFFF]).carrier,
        vec![0xFFFF_FFFF, 0x7FFF_FFFF]
    );
}

#[test]
fn test_add_zero_is_identity() {
    let x = BigInt::new_large(vec![0xFFFF_FFFA, 0xFFFF_FFF8]);
    let r = x.clone().add(BigInt::new(0));
    assert_eq!(r.carrier, x.carrier);
}

#[test]
fn test_add_commutes() {
    let a = BigInt::new_large(vec![7, 0x9000_0001]);
    let b = BigInt::new_large(vec![0xFFFF_FF00, 0x1234_5678]);
    let ab = a.clone().add(b.clone());
    let ba = b.add(a);
    assert_eq!(ab.carrier, ba.carrier);
}

#[test]
fn test_add_associates() {
    let a = BigInt::new_large(vec![0x7FFF_FFFF, 2]);
    let b = BigInt::new_large(vec![0xFFFF_FFFE]);
    let c = BigInt::new_large(vec![3, 4, 5]);
    let left = a.clone().add(b.clone()).add(c.clone());
    let right = a.add(b.add(c));
    assert_eq!(left.carrier, right.carrier);
}

#[test]
fn test_two_complement_negates() {
    let x = BigInt::new_large(vec![5]);
    assert_eq!(x.two_complement().carrier, vec![0xFFFF_FFFBu32]);
    let sum = BigInt::new(5).add(BigInt::new(5).two_complement());
    assert_eq!(sum.carrier, vec![0u32]);
}

#[test]
fn test_sub_self_is_zero() {
    let a = BigInt::new_large(vec![5, 6, 7]);
    let r = a.clone().sub(a);
    assert_eq!(r.carrier, vec![0u32]);
}

#[test]
fn test_sub_self_minimum_width_value() {
    // The minimum value of a one-word width negates to itself, so the
    // difference doubles it instead of cancelling.
    let m = BigInt::new_large(vec![0x8000_0000]);
    let r = m.clone().sub(m);
    assert_eq!(r.carrier, vec![0xFFFF_FFFF, 0x0000_0000]);
}

#[test]
fn test_sign_extension_round_trip() {
    let x = BigInt::new_large(vec![0xFFFF_FFF0, 3]);
    let extended = x.sign_extension(5);
    assert_eq!(extended.carrier.len(), 5);
    assert_eq!(extended.truncate().carrier, x.truncate().carrier);

    let y = BigInt::new(12);
    assert_eq!(y.sign_extension(3).truncate().carrier, y.truncate().carrier);
}

#[test]
fn test_sign_extension_never_shrinks() {
    let x = BigInt::new_large(vec![1, 2, 3]);
    assert_eq!(x.sign_extension(1).carrier, vec![1, 2, 3]);
}

#[test]
fn test_multiword_carry_propagation() {
    // 0x00000000_FFFFFFFF + 1 == 0x00000001_00000000
    let a = BigInt::new_large(vec![0x0000_0000, 0xFFFF_FFFF]);
    let r = a.add(BigInt::new(1));
    assert_eq!(r.carrier, vec![0x0000_0001, 0x0000_0000]);
}

#[test]
fn test_hex_of_single_word() {
    assert_eq!(BigInt::new(0).to_hex_string(), "00000000");
    assert_eq!(BigInt::new(0xDEAD_BEEF).to_hex_string(), "deadbeef");
}
