use custodes::gf256::{gf_inv, gf_mul};
use custodes::polynomial::gf_eval;

#[test]
fn known_products() {
    assert_eq!(gf_mul(0x57, 0x83), 0xc1);
    assert_eq!(gf_mul(0x57, 0x13), 0xfe);
    assert_eq!(gf_mul(0x80, 0x02), 0x1b);
    assert_eq!(gf_mul(0x00, 0xff), 0x00);
    assert_eq!(gf_mul(0x01, 0xff), 0xff);
}

#[test]
fn known_inverses() {
    assert_eq!(gf_inv(0x53), 0xca);
    assert_eq!(gf_inv(0x02), 0x8d);
    assert_eq!(gf_inv(0x01), 0x01);
    assert_eq!(gf_inv(0x00), 0x00);
}

#[test]
fn every_inverse_inverts() {
    for a in 1..=255u8 {
        assert_eq!(gf_mul(a, gf_inv(a)), 1);
    }
}

#[test]
fn product_commutes_and_distributes() {
    for a in 0..=255u8 {
        for b in 0..=255u8 {
            assert_eq!(gf_mul(a, b), gf_mul(b, a));
            assert_eq!(gf_mul(a ^ 0x1d, b), gf_mul(a, b) ^ gf_mul(0x1d, b));
            assert_eq!(gf_mul(gf_mul(a, b), 0x35), gf_mul(a, gf_mul(b, 0x35)));
        }
    }
}

#[test]
fn product_is_the_remainder_of_the_carryless_product() {
    let (a, b) = (0xb7u8, 0xe9u8);
    let mut wide: u32 = 0;
    for i in 0..8 {
        if b >> i & 1 == 1 {
            wide ^= (a as u32) << i;
        }
    }
    for i in (8..16).rev() {
        if wide >> i & 1 == 1 {
            wide ^= 0x11b << (i - 8);
        }
    }
    assert_eq!(gf_mul(a, b) as u32, wide);
}

#[test]
fn known_values_of_polynomials() {
    assert_eq!(gf_eval(&[], 7), 0);
    assert_eq!(gf_eval(&[9], 7), 9);
    // 5 + 7x at 2: 7 * 2 == 14, and 5 ^ 14 == 11.
    assert_eq!(gf_eval(&[5, 7], 2), 11);
    // 1 + x^2 at 0x10: 0x10 * 0x10 == 0x1b.
    assert_eq!(gf_eval(&[1, 0, 1], 0x10), 0x1a);
    assert_eq!(gf_eval(&[0x42, 3, 1, 4], 0), 0x42);
}
