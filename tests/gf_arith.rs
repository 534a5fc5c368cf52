use xts::gf::{gf_mul, gf_reverse_mul};

fn one() -> [u8; 16] {
    let mut b = [0u8; 16];
    b[0] = 1;
    b
}

#[test]
fn gf_mul_shifts_across_bytes() {
    let mut t = [0u8; 16];
    t[0] = 0x80;
    t[5] = 0x81;
    let carry = gf_mul(&mut t);
    assert!(!carry);
    let mut expected = [0u8; 16];
    expected[1] = 0x01;
    expected[5] = 0x02;
    expected[6] = 0x01;
    assert_eq!(t, expected);
}

#[test]
fn gf_mul_reduces_on_carry() {
    let mut t = [0u8; 16];
    t[15] = 0x80;
    t[0] = 0x01;
    let carry = gf_mul(&mut t);
    assert!(carry);
    let mut expected = [0u8; 16];
    expected[0] = 0x02 ^ 0x87;
    assert_eq!(t, expected);
}

#[test]
fn gf_mul_128_times_one_is_reduction_polynomial() {
    let mut t = one();
    for k in 0..128 {
        let mut monomial = [0u8; 16];
        monomial[k / 8] = 1u8 << (k % 8);
        assert_eq!(t, monomial);
        let carry = gf_mul(&mut t);
        assert_eq!(carry, k == 127);
    }
    let mut expected = [0u8; 16];
    expected[0] = 0x87;
    assert_eq!(t, expected);
}

#[test]
fn gf_reverse_mul_undoes_gf_mul() {
    let samples: [[u8; 16]; 3] = [
        [0xff; 16],
        [0x80, 0, 0, 0, 0, 0, 0, 0, 0, 0, 0, 0, 0, 0, 0, 0x80],
        [
            0x12, 0x34, 0x56, 0x78, 0x9a, 0xbc, 0xde, 0xf0, 0x0f, 0xed, 0xcb, 0xa9, 0x87, 0x65,
            0x43, 0x21,
        ],
    ];
    for s in samples.iter() {
        let mut t = *s;
        let carry = gf_mul(&mut t);
        assert_ne!(t, *s);
        gf_reverse_mul(&mut t, carry);
        assert_eq!(t, *s);
    }
}
