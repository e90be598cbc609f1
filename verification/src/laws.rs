//! The laws the kernel obeys, stated over the mathematical model and proved
//! once and for all.  Together with the `ensures` clauses of `fe_add` and
//! `fe_sub` (closure of modular addition and subtraction) these pin down
//! the behaviour of every public operation.
use vstd::prelude::*;

verus! {

use crate::model::{
    limbs_val,
    n_val,
    r_val,
    rinv_val,
    w6val,
    lemma_limbs_val_injective,
    lemma_limbs_val_nonneg,
    lemma_r_cancel,
    lemma_r_rinv,
};
use vstd::arithmetic::div_mod::{
    lemma_mod_bound,
    lemma_mul_mod_noop_left,
    lemma_mul_mod_noop_right,
    lemma_small_mod,
};

/// Round-trip: converting any reduced value into the Montgomery domain and
/// back returns it unchanged.  `fe_to_mont` yields (a * R) mod N and
/// `fe_to_norm` multiplies by R^{-1} mod N again.
pub proof fn lemma_round_trip(a: int)
    requires
        0 <= a < n_val(),
    ensures
        (((a * r_val()) % n_val()) * rinv_val()) % n_val() == a,
{
    let nv = n_val();
    let rv = r_val();
    let ri = rinv_val();
    lemma_r_rinv();
    lemma_mul_mod_noop_left(a * rv, ri, nv);
    assert((a * rv) * ri == a * (rv * ri)) by (nonlinear_arith);
    lemma_mul_mod_noop_right(a, rv * ri, nv);
    assert(a * ((rv * ri) % nv) == a) by (nonlinear_arith)
        requires
            (rv * ri) % nv == 1,
    ;
    lemma_small_mod(a as nat, nv as nat);
}

/// Multiplication correctness: taking a and b into the Montgomery domain,
/// multiplying there with `fe_mont_mul`, and converting back yields
/// exactly (a * b) mod N.
pub proof fn lemma_mont_mul_correct(a: int, b: int)
    requires
        0 <= a < n_val(),
        0 <= b < n_val(),
    ensures
        ((((((a * r_val()) % n_val()) * ((b * r_val()) % n_val())) * rinv_val()) % n_val())
            * rinv_val()) % n_val() == (a * b) % n_val(),
{
    let nv = n_val();
    let rv = r_val();
    let ri = rinv_val();
    let am = (a * rv) % nv;
    let bm = (b * rv) % nv;
    lemma_r_rinv();
    // Peel the three outer reductions down to one product of plain factors.
    lemma_mul_mod_noop_left((am * bm) * ri, ri, nv);
    assert(((am * bm) * ri) * ri == (am * bm) * (ri * ri)) by (nonlinear_arith);
    lemma_mul_mod_noop_left(a * rv, bm * (ri * ri), nv);
    assert((am * bm) * (ri * ri) == am * (bm * (ri * ri))) by (nonlinear_arith);
    lemma_mul_mod_noop_left(b * rv, (a * rv) * (ri * ri), nv);
    assert((a * rv) * (bm * (ri * ri)) == bm * ((a * rv) * (ri * ri))) by (nonlinear_arith);
    // Now everything is (a * b) times two full factors of R * R^{-1}.
    assert((b * rv) * ((a * rv) * (ri * ri)) == (a * b) * ((rv * ri) * (rv * ri)))
        by (nonlinear_arith);
    lemma_mul_mod_noop_right(a * b, (rv * ri) * (rv * ri), nv);
    vstd::arithmetic::div_mod::lemma_mul_mod_noop(rv * ri, rv * ri, nv);
    assert(((rv * ri) % nv) * ((rv * ri) % nv) == 1) by (nonlinear_arith)
        requires
            (rv * ri) % nv == 1,
    ;
    lemma_small_mod(1nat, nv as nat);
    assert(((rv * ri) * (rv * ri)) % nv == 1);
    assert((a * b) * (((rv * ri) * (rv * ri)) % nv) == a * b) by (nonlinear_arith)
        requires
            ((rv * ri) * (rv * ri)) % nv == 1,
    ;
}

/// Tier equivalence: any two six-word outputs that satisfy the Montgomery
/// multiplication contract for the same reduced operands are bit-identical.
/// Every multiplication tier ensures exactly this contract, so all tiers
/// agree word for word on every valid input pair.
pub proof fn lemma_tier_agreement(a: int, b: int, r1: [u64; 6], r2: [u64; 6])
    requires
        0 <= a < n_val(),
        0 <= b < n_val(),
        w6val(r1) < n_val(),
        w6val(r2) < n_val(),
        (w6val(r1) * r_val()) % n_val() == (a * b) % n_val(),
        (w6val(r2) * r_val()) % n_val() == (a * b) % n_val(),
    ensures
        r1 == r2,
{
    lemma_limbs_val_nonneg(r1@, 0, 6);
    lemma_limbs_val_nonneg(r2@, 0, 6);
    lemma_r_cancel(w6val(r1), w6val(r2));
    lemma_limbs_val_injective(r1@, r2@, 0, 6);
    vstd::array::axiom_array_ext_equal(r1, r2);
    assert(r1 =~= r2);
}

} // verus!
