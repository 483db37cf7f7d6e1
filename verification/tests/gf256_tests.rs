use hecc::gf256::Gf256;

#[test]
fn gf256_mul_inv() {
    let gf = Gf256::default();
    for a in 1u8..=254u8 {
        let inv = gf.inv(a);
        assert_eq!(gf.mul(a, inv), 1);
    }
}

#[test]
fn gf256_mul_inv_of_every_nonzero_byte() {
    let gf = Gf256::default();
    for a in 1u8..=255u8 {
        assert_eq!(gf.mul(a, gf.inv(a)), 1);
        assert_eq!(gf.mul(gf.inv(a), a), 1);
    }
}

#[test]
fn gf256_div_undoes_mul() {
    let gf = Gf256::default();
    for a in 0u8..=255u8 {
        for b in 1u8..=255u8 {
            assert_eq!(gf.div(gf.mul(a, b), b), a);
        }
    }
}

#[test]
fn gf256_add_is_its_own_inverse() {
    let gf = Gf256::default();
    for a in 0u8..=255u8 {
        for b in 0u8..=255u8 {
            assert_eq!(gf.add(gf.add(a, b), b), a);
            assert_eq!(gf.sub(gf.add(a, b), b), a);
            assert_eq!(gf.add(a, b), a ^ b);
            assert_eq!(gf.sub(a, b), a ^ b);
        }
    }
}

#[test]
fn gf256_known_products() {
    let gf = Gf256::default();
    assert_eq!(gf.mul(2, 0x80), 0x1d);
    assert_eq!(gf.mul(3, 7), 9);
    assert_eq!(gf.mul(0x53, 0xca), 143);
    assert_eq!(gf.mul(255, 255), 226);
    assert_eq!(gf.mul(1, 77), 77);
    assert_eq!(gf.mul(77, 1), 77);
}

#[test]
fn gf256_known_quotients_and_inverses() {
    let gf = Gf256::default();
    assert_eq!(gf.inv(1), 1);
    assert_eq!(gf.inv(2), 142);
    assert_eq!(gf.inv(255), 253);
    assert_eq!(gf.div(1, 2), 142);
    assert_eq!(gf.div(7, 3), 246);
    assert_eq!(gf.div(9, 7), 3);
}

#[test]
fn gf256_zero_conventions() {
    let gf = Gf256::default();
    for a in 0u8..=255u8 {
        assert_eq!(gf.mul(a, 0), 0);
        assert_eq!(gf.mul(0, a), 0);
        assert_eq!(gf.div(0, a), 0);
        assert_eq!(gf.div(a, 0), 0);
    }
    assert_eq!(gf.inv(0), 0);
}

#[test]
fn gf256_mul_is_commutative_and_distributes() {
    let gf = Gf256::default();
    for a in 0u8..=255u8 {
        for b in 0u8..=255u8 {
            assert_eq!(gf.mul(a, b), gf.mul(b, a));
            let c: u8 = a.wrapping_mul(31).wrapping_add(b);
            assert_eq!(gf.mul(a, gf.add(b, c)), gf.add(gf.mul(a, b), gf.mul(a, c)));
        }
    }
}

#[test]
fn gf256_clone_computes_alike() {
    let gf = Gf256::default();
    let other = gf.clone();
    for a in 0u8..=255u8 {
        assert_eq!(gf.mul(a, 29), other.mul(a, 29));
        assert_eq!(gf.inv(a), other.inv(a));
    }
}
