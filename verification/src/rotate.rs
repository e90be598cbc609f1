//! Iterated-rotation drivers: each one chains an operation a thousand
//! times, rotating the operands (`y = x; x = result`) between steps, and
//! compares the final value against an expected limb vector.  The chain's
//! outcome is pinned down by a spec-level iteration, so a `true` answer
//! proves the whole chain of kernel calls hit the expected value exactly.
use vstd::prelude::*;

verus! {

use crate::arith::{W6x64, fe_add, fe_mont_mul, fe_sub};
use crate::flat::fe_mont_mul_raw;
use crate::model::{
    n_val,
    rinv_val,
    w6val,
    lemma_limbs_val_injective,
};

/// The pair (x, y) after n steps of `x, y = (x + y) mod N, x`.
pub open spec fn rotate_add(x: int, y: int, n: nat) -> (int, int)
    decreases n,
{
    if n == 0 {
        (x, y)
    } else {
        let prev = rotate_add(x, y, (n - 1) as nat);
        ((prev.0 + prev.1) % n_val(), prev.0)
    }
}

/// The pair (x, y) after n steps of `x, y = (x - y) mod N, x`.
pub open spec fn rotate_sub(x: int, y: int, n: nat) -> (int, int)
    decreases n,
{
    if n == 0 {
        (x, y)
    } else {
        let prev = rotate_sub(x, y, (n - 1) as nat);
        ((prev.0 - prev.1 + n_val()) % n_val(), prev.0)
    }
}

/// The pair (x, y) after n steps of `x, y = x * y * R^{-1} mod N, x`:
/// one Montgomery multiplication per step, any tier.
pub open spec fn rotate_mul(x: int, y: int, n: nat) -> (int, int)
    decreases n,
{
    if n == 0 {
        (x, y)
    } else {
        let prev = rotate_mul(x, y, (n - 1) as nat);
        ((prev.0 * prev.1 * rinv_val()) % n_val(), prev.0)
    }
}

/// Whether two limb vectors are equal exactly when their values are.
proof fn lemma_eq_by_value(x: W6x64, y: W6x64)
    ensures
        (x.v == y.v) <==> (w6val(x.v) == w6val(y.v)),
{
    if w6val(x.v) == w6val(y.v) {
        lemma_limbs_val_injective(x.v@, y.v@, 0, 6);
        vstd::array::axiom_array_ext_equal(x.v, y.v);
        assert(x.v =~= y.v);
    }
}

/// Modular addition iterated a thousand times with operand rotation;
/// answers whether the final vector is exactly `expected`.
pub fn add_rust(x: &W6x64, y: &W6x64, expected: &W6x64) -> (r: bool)
    requires
        w6val(x.v) < n_val(),
        w6val(y.v) < n_val(),
    ensures
        r == (rotate_add(w6val(x.v), w6val(y.v), 1000).0 == w6val(expected.v)),
{
    let mut xx = *x;
    let mut yy = *y;
    let mut result = W6x64::default();
    for i in 0..1000usize
        invariant
            w6val(xx.v) < n_val(),
            w6val(yy.v) < n_val(),
            (w6val(xx.v), w6val(yy.v)) == rotate_add(w6val(x.v), w6val(y.v), i as nat),
            i > 0 ==> result == xx,
    {
        fe_add(&mut result, &xx, &yy);
        yy = xx;
        xx = result;
    }
    proof {
        lemma_eq_by_value(result, *expected);
    }
    result == *expected
}

/// Modular subtraction iterated a thousand times with operand rotation;
/// answers whether the final vector is exactly `expected`.
pub fn sub_rust(x: &W6x64, y: &W6x64, expected: &W6x64) -> (r: bool)
    requires
        w6val(x.v) < n_val(),
        w6val(y.v) < n_val(),
    ensures
        r == (rotate_sub(w6val(x.v), w6val(y.v), 1000).0 == w6val(expected.v)),
{
    let mut xx = *x;
    let mut yy = *y;
    let mut result = W6x64::default();
    for i in 0..1000usize
        invariant
            w6val(xx.v) < n_val(),
            w6val(yy.v) < n_val(),
            (w6val(xx.v), w6val(yy.v)) == rotate_sub(w6val(x.v), w6val(y.v), i as nat),
            i > 0 ==> result == xx,
    {
        fe_sub(&mut result, &xx, &yy);
        yy = xx;
        xx = result;
    }
    proof {
        lemma_eq_by_value(result, *expected);
    }
    result == *expected
}

/// Montgomery multiplication (reference tier) iterated a thousand times
/// with operand rotation; answers whether the final vector is exactly
/// `expected`.
pub fn mul_rust(x: &W6x64, y: &W6x64, expected: &W6x64) -> (r: bool)
    requires
        w6val(x.v) < n_val(),
        w6val(y.v) < n_val(),
    ensures
        r == (rotate_mul(w6val(x.v), w6val(y.v), 1000).0 == w6val(expected.v)),
{
    let mut xx = *x;
    let mut yy = *y;
    let mut result = W6x64::default();
    for i in 0..1000usize
        invariant
            w6val(xx.v) < n_val(),
            w6val(yy.v) < n_val(),
            (w6val(xx.v), w6val(yy.v)) == rotate_mul(w6val(x.v), w6val(y.v), i as nat),
            i > 0 ==> result == xx,
    {
        fe_mont_mul(&mut result, &xx, &yy);
        yy = xx;
        xx = result;
    }
    proof {
        lemma_eq_by_value(result, *expected);
    }
    result == *expected
}

/// Montgomery multiplication (flattened tier) iterated a thousand times
/// with operand rotation.  Same contract as `mul_rust`: the two tiers are
/// interchangeable.
pub fn mul_rust_raw(x: &W6x64, y: &W6x64, expected: &W6x64) -> (r: bool)
    requires
        w6val(x.v) < n_val(),
        w6val(y.v) < n_val(),
    ensures
        r == (rotate_mul(w6val(x.v), w6val(y.v), 1000).0 == w6val(expected.v)),
{
    let mut xx = *x;
    let mut yy = *y;
    let mut result = W6x64::default();
    for i in 0..1000usize
        invariant
            w6val(xx.v) < n_val(),
            w6val(yy.v) < n_val(),
            (w6val(xx.v), w6val(yy.v)) == rotate_mul(w6val(x.v), w6val(y.v), i as nat),
            i > 0 ==> result == xx,
    {
        fe_mont_mul_raw(&mut result, &xx, &yy);
        yy = xx;
        xx = result;
    }
    proof {
        lemma_eq_by_value(result, *expected);
    }
    result == *expected
}

} // verus!
