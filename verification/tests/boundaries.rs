//! Boundary-value tests: 0, 1 and N-1 are pushed through every operation
//! and both multiplication tiers, checked against an arbitrary-precision
//! reference and against a few exact hand-written vectors.
use mont384::arith::{fe_add, fe_mont_mul, fe_mont_mul_raw, fe_sub, fe_to_mont, fe_to_norm, W6x64};
use num_bigint::BigUint;
use num_traits::Num;
use std::convert::TryInto;

const N_MINUS_1: [u64; 6] = [
    0xb9feffffffffaaaa,
    0x1eabfffeb153ffff,
    0x6730d2a0f6b0f624,
    0x64774b84f38512bf,
    0x4b1ba7b6434bacd7,
    0x1a0111ea397fe69a,
];

const N_MINUS_2: [u64; 6] = [
    0xb9feffffffffaaa9,
    0x1eabfffeb153ffff,
    0x6730d2a0f6b0f624,
    0x64774b84f38512bf,
    0x4b1ba7b6434bacd7,
    0x1a0111ea397fe69a,
];

// R mod N: the Montgomery form of one.
const R_MOD_N: [u64; 6] = [
    0x760900000002fffd,
    0xebf4000bc40c0002,
    0x5f48985753c758ba,
    0x77ce585370525745,
    0x5c071a97a256ec6d,
    0x15f65ec3fa80e493,
];

fn modulus() -> BigUint {
    BigUint::from_str_radix(
        "1a0111ea397fe69a4b1ba7b6434bacd764774b84f38512bf6730d2a0f6b0f6241eabfffeb153ffffb9feffffffffaaab",
        16,
    )
    .unwrap()
}

fn big_to_6u64(x: &BigUint) -> [u64; 6] {
    let mut bytes = [0_u8; 48];
    let le = x.to_bytes_le();
    bytes[0..le.len()].clone_from_slice(&le);
    let mut result = [0_u64; 6];
    for i in 0..6 {
        result[i] = u64::from_le_bytes(bytes[i * 8..(i + 1) * 8].try_into().unwrap());
    }
    result
}

fn limbs_to_big(w: &[u64; 6]) -> BigUint {
    let mut bytes = [0_u8; 48];
    for i in 0..6 {
        bytes[i * 8..(i + 1) * 8].clone_from_slice(&w[i].to_le_bytes());
    }
    BigUint::from_bytes_le(&bytes)
}

fn boundary_values() -> Vec<[u64; 6]> {
    vec![[0, 0, 0, 0, 0, 0], [1, 0, 0, 0, 0, 0], [2, 0, 0, 0, 0, 0], N_MINUS_2, N_MINUS_1]
}

#[test]
fn add_on_boundary_values() {
    let n = modulus();
    let mut out = W6x64::default();
    for a in boundary_values() {
        for b in boundary_values() {
            let aw = W6x64 { v: a };
            let bw = W6x64 { v: b };
            fe_add(&mut out, &aw, &bw);
            let expected = (limbs_to_big(&a) + limbs_to_big(&b)) % &n;
            assert_eq!(out.v, big_to_6u64(&expected));
        }
    }
}

#[test]
fn sub_on_boundary_values() {
    let n = modulus();
    let mut out = W6x64::default();
    for a in boundary_values() {
        for b in boundary_values() {
            let aw = W6x64 { v: a };
            let bw = W6x64 { v: b };
            fe_sub(&mut out, &aw, &bw);
            let expected = (limbs_to_big(&a) + &n - limbs_to_big(&b)) % &n;
            assert_eq!(out.v, big_to_6u64(&expected));
        }
    }
}

#[test]
fn mont_mul_tiers_on_boundary_values() {
    let n = modulus();
    let mut a_mont = W6x64::default();
    let mut b_mont = W6x64::default();
    let mut out_ref = W6x64::default();
    let mut out_raw = W6x64::default();
    let mut out_norm = [0_u64; 6];
    for a in boundary_values() {
        for b in boundary_values() {
            fe_to_mont(&mut a_mont, &a);
            fe_to_mont(&mut b_mont, &b);
            fe_mont_mul(&mut out_ref, &a_mont, &b_mont);
            fe_mont_mul_raw(&mut out_raw, &a_mont, &b_mont);
            // All tiers produce bit-identical output.
            assert_eq!(out_ref.v, out_raw.v);
            // And the product is right.
            fe_to_norm(&mut out_norm, &out_ref);
            let expected = (limbs_to_big(&a) * limbs_to_big(&b)) % &n;
            assert_eq!(out_norm, big_to_6u64(&expected));
        }
    }
}

#[test]
fn round_trip_on_boundary_values() {
    let mut mont = W6x64::default();
    let mut back = [0_u64; 6];
    for a in boundary_values() {
        fe_to_mont(&mut mont, &a);
        fe_to_norm(&mut back, &mont);
        assert_eq!(back, a);
    }
}

#[test]
fn exact_small_vectors() {
    let mut out = W6x64::default();
    let one = W6x64 { v: [1, 0, 0, 0, 0, 0] };
    let nm1 = W6x64 { v: N_MINUS_1 };

    // 1 + 1 == 2
    fe_add(&mut out, &one, &one);
    assert_eq!(out.v, [2, 0, 0, 0, 0, 0]);

    // (N-1) + (N-1) == N-2
    fe_add(&mut out, &nm1, &nm1);
    assert_eq!(out.v, N_MINUS_2);

    // (N-1) + 1 == 0
    fe_add(&mut out, &nm1, &one);
    assert_eq!(out.v, [0, 0, 0, 0, 0, 0]);

    // 0 - 1 == N-1
    let zero = W6x64::default();
    fe_sub(&mut out, &zero, &one);
    assert_eq!(out.v, N_MINUS_1);

    // The Montgomery form of 1 is R mod N, on both tiers' conversions.
    fe_to_mont(&mut out, &[1, 0, 0, 0, 0, 0]);
    assert_eq!(out.v, R_MOD_N);

    // 2 * 3 == 6 through the Montgomery domain.
    let mut two_mont = W6x64::default();
    let mut three_mont = W6x64::default();
    let mut prod = W6x64::default();
    let mut prod_norm = [0_u64; 6];
    fe_to_mont(&mut two_mont, &[2, 0, 0, 0, 0, 0]);
    fe_to_mont(&mut three_mont, &[3, 0, 0, 0, 0, 0]);
    fe_mont_mul(&mut prod, &two_mont, &three_mont);
    fe_to_norm(&mut prod_norm, &prod);
    assert_eq!(prod_norm, [6, 0, 0, 0, 0, 0]);
}
