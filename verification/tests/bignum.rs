use oxideav_image_filter::bignum::{compare_limbs, limbs_of_u128, mul_limbs, sub_limbs};

fn value(limbs: &[u32]) -> u128 {
    limbs.iter().rev().fold(0u128, |acc, &l| (acc << 32) | l as u128)
}

#[test]
fn limbs_of_u128_are_little_endian() {
    let l = limbs_of_u128(0x0123_4567_89ab_cdef_0011_2233_4455_6677);
    assert_eq!(l, vec![0x4455_6677, 0x0011_2233, 0x89ab_cdef, 0x0123_4567]);
}

#[test]
fn mul_limbs_is_exact() {
    let a = limbs_of_u128(u64::MAX as u128);
    let b = limbs_of_u128(u64::MAX as u128);
    let p = mul_limbs(&a, &b);
    assert_eq!(p.len(), 8);
    assert_eq!(value(&p[..4]), (u64::MAX as u128) * (u64::MAX as u128));
    assert!(p[4..].iter().all(|&l| l == 0));
    // (2^128 - 1)^2 = 2^256 - 2^129 + 1
    let m = limbs_of_u128(u128::MAX);
    let q = mul_limbs(&m, &m);
    assert_eq!(q, vec![1, 0, 0, 0, 0xffff_fffe, 0xffff_ffff, 0xffff_ffff, 0xffff_ffff]);
}

#[test]
fn compare_and_subtract() {
    let a = limbs_of_u128(1 << 100);
    let b = limbs_of_u128((1 << 100) - 1);
    assert_eq!(compare_limbs(&a, &b), 1);
    assert_eq!(compare_limbs(&b, &a), -1);
    assert_eq!(compare_limbs(&a, &a), 0);
    assert_eq!(sub_limbs(&a, &b), vec![1, 0, 0, 0]);
    assert_eq!(value(&sub_limbs(&a, &limbs_of_u128(5))), (1 << 100) - 5);
}
