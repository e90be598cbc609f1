//! Fixed-vector scenarios: a thousand-step operand rotation of each
//! operation, starting from a known input pair, must land exactly on the
//! recorded limb vectors, and both multiplication tiers must agree on it.
use mont384::arith::{fe_add, fe_mont_mul, fe_mont_mul_raw, fe_sub, W6x64};
use mont384::rotate::{add_rust, mul_rust, mul_rust_raw, sub_rust};

const X: W6x64 = W6x64 {
    v: [
        0xc34110121829fa85,
        0xc42f61586f13abac,
        0x5a98f20b2164430a,
        0xcdd6beb839ca6556,
        0xdacae65ae941e8e8,
        0xf594a44cbdf0ae1,
    ],
};

const Y: W6x64 = W6x64 {
    v: [
        0xf4921aadbbf08d96,
        0x9f5973902a56b682,
        0x4b86761f89b618b2,
        0xca440e25b9c201dd,
        0xd3caeb49dc668726,
        0x416ce3c635e5e23,
    ],
};

const EXP_SUM: W6x64 = W6x64 {
    v: [
        0xbd3d31dc0303fa06,
        0x704875edd38742a3,
        0x60549f5927a1c745,
        0xe234ee37eb7d3cee,
        0xa13832d81ab0d5c5,
        0x10fdd2f03da8f7ca,
    ],
};

const EXP_DIFF: W6x64 = W6x64 {
    v: [
        0xeb500a9ba3c63dbc,
        0xf9d612366c970ad5,
        0x581e56b55f02cbcb,
        0x60e49af2737caf46,
        0x441baca536704b15,
        0xebe95e1d0ff39dc,
    ],
};

const EXP_PROD: W6x64 = W6x64 {
    v: [
        0xb54cf29498954919,
        0x8f2491ddb5cef751,
        0xb155fe8acce5c7d3,
        0x448683648418e8dd,
        0xf3599187e803fc7e,
        0x1118bd439ac24052,
    ],
};

#[test]
fn rotation_add_hits_expected_sum() {
    assert!(add_rust(&X, &Y, &EXP_SUM));
    // A wrong expectation is detected.
    assert!(!add_rust(&X, &Y, &EXP_DIFF));
}

#[test]
fn rotation_sub_hits_expected_diff() {
    assert!(sub_rust(&X, &Y, &EXP_DIFF));
    assert!(!sub_rust(&X, &Y, &EXP_SUM));
}

#[test]
fn rotation_mul_hits_expected_prod() {
    assert!(mul_rust(&X, &Y, &EXP_PROD));
    assert!(!mul_rust(&X, &Y, &EXP_SUM));
}

#[test]
fn rotation_mul_raw_matches_reference_tier() {
    assert!(mul_rust_raw(&X, &Y, &EXP_PROD));
    assert!(!mul_rust_raw(&X, &Y, &EXP_DIFF));
}

#[test]
fn direct_add_chain_matches_expected_sum() {
    let mut xx = X;
    let mut yy = Y;
    let mut result = W6x64::default();
    for _i in 0..1_000 {
        fe_add(&mut result, &xx, &yy);
        yy = xx;
        xx = result;
    }
    assert_eq!(result.v, EXP_SUM.v);
}

#[test]
fn direct_sub_chain_matches_expected_diff() {
    let mut xx = X;
    let mut yy = Y;
    let mut result = W6x64::default();
    for _i in 0..1_000 {
        fe_sub(&mut result, &xx, &yy);
        yy = xx;
        xx = result;
    }
    assert_eq!(result.v, EXP_DIFF.v);
}

#[test]
fn direct_mul_chains_match_expected_prod_on_both_tiers() {
    let mut xx = X;
    let mut yy = Y;
    let mut result = W6x64::default();
    for _i in 0..1_000 {
        fe_mont_mul(&mut result, &xx, &yy);
        yy = xx;
        xx = result;
    }
    assert_eq!(result.v, EXP_PROD.v);

    let mut xx = X;
    let mut yy = Y;
    let mut result_raw = W6x64::default();
    for _i in 0..1_000 {
        fe_mont_mul_raw(&mut result_raw, &xx, &yy);
        yy = xx;
        xx = result_raw;
    }
    assert_eq!(result_raw.v, EXP_PROD.v);
}
