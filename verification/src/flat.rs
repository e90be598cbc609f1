//! Montgomery multiplication, flattened tier: the same CIOS procedure as
//! the reference kernel, with the limb loops fully unrolled into named
//! single-word steps to expose instruction-level parallelism.  The high
//! and low halves of each 64x64 product run through separate carry chains,
//! as a register-scheduled implementation would keep them in separate
//! flag traces.  Mathematically identical to the reference tier: for every
//! reduced input pair the six-word output is bit-identical.
use vstd::prelude::*;

verus! {

use crate::arith::{
    carrying_add_w,
    W6x64,
    N,
    N_PRIME,
    mul_wide,
    sub6,
};
use crate::model::{
    limbs_val,
    n_val,
    p64,
    pow64,
    r_val,
    rinv_val,
    w6val,
    lemma_carry_step,
    lemma_hi_digit_small,
    lemma_limbs_val_bound,
    lemma_limbs_val_nonneg,
    lemma_limbs_val_zero,
    lemma_limbs_val_snoc,
    lemma_m_cancels,
    lemma_mod_mul_both,
    lemma_mont_result,
    lemma_pow64_6_is_r,
    lemma_pow64_pos,
    lemma_reduce_once,
    lemma_top_limb_small,
    lemma_w6_scalar_product,
    lemma_w6_shift_up,
    lemma_w6_weighted,
    lemma_w7_weighted,
};
use vstd::arithmetic::div_mod::{
    lemma_add_mod_noop,
    lemma_fundamental_div_mod_converse_mod,
    lemma_mod_multiples_vanish,
    lemma_mul_mod_noop_left,
};
use vstd::arithmetic::mul::{
    lemma_mul_inequality,
    lemma_mul_inequality_converse,
    lemma_mul_is_commutative,
};

/// First half of an unrolled CIOS round: fold the twelve product halves of
/// a * bi into the running accumulator t, producing a seven-word value.
/// The high words go through one carry chain at offset one, the low words
/// through a second chain at offset zero, as two separate flag traces.
#[verifier::rlimit(100)]
pub(crate) fn round_mul_acc(t: &[u64; 6], a: &W6x64, bi: u64) -> (u: [u64; 7])
    requires
        w6val(a.v) < n_val(),
    ensures
        limbs_val(u@, 0, 7) == limbs_val(t@, 0, 6) + w6val(a.v) * bi,
        u@[6] < 0x3402_23d4_72ff_cd38,
{
    proof {
        lemma_top_limb_small(a.v);
    }
    // Full 64x64 products of each limb of a with bi.
    let (lo_a0, hi_a0) = mul_wide(a.v[0], bi);
    let (lo_a1, hi_a1) = mul_wide(a.v[1], bi);
    let (lo_a2, hi_a2) = mul_wide(a.v[2], bi);
    let (lo_a3, hi_a3) = mul_wide(a.v[3], bi);
    let (lo_a4, hi_a4) = mul_wide(a.v[4], bi);
    let (lo_a5, hi_a5) = mul_wide(a.v[5], bi);
    proof {
        lemma_hi_digit_small(
            lo_a5 as int,
            hi_a5 as int,
            a.v@[5] as int,
            bi as int,
            0x3402_23d4_72ff_cd36,
        );
    }
    // High-word trace: add the product highs at offset one.
    let (s1, c1) = carrying_add_w(t[1], hi_a0, 0);
    let (s2, c2) = carrying_add_w(t[2], hi_a1, c1);
    let (s3, c3) = carrying_add_w(t[3], hi_a2, c2);
    let (s4, c4) = carrying_add_w(t[4], hi_a3, c3);
    let (s5, c5) = carrying_add_w(t[5], hi_a4, c4);
    let s6: u64 = hi_a5 + c5;
    // Low-word trace: add the product lows at offset zero.
    let (u0, d0) = carrying_add_w(t[0], lo_a0, 0);
    let (u1, d1) = carrying_add_w(s1, lo_a1, d0);
    let (u2, d2) = carrying_add_w(s2, lo_a2, d1);
    let (u3, d3) = carrying_add_w(s3, lo_a3, d2);
    let (u4, d4) = carrying_add_w(s4, lo_a4, d3);
    let (u5, d5) = carrying_add_w(s5, lo_a5, d4);
    let u6: u64 = s6 + d5;
    let u = [u0, u1, u2, u3, u4, u5, u6];
    proof {
        lemma_mul_is_commutative(p64(), hi_a0 as int);
        lemma_mul_is_commutative(p64(), hi_a1 as int);
        lemma_mul_is_commutative(p64(), hi_a2 as int);
        lemma_mul_is_commutative(p64(), hi_a3 as int);
        lemma_mul_is_commutative(p64(), hi_a4 as int);
        lemma_mul_is_commutative(p64(), hi_a5 as int);
        lemma_carry_step(lo_a0 as int, hi_a0 as int, a.v@[0] * bi, 0, 0, 0);
        lemma_carry_step(lo_a1 as int, hi_a1 as int, a.v@[1] * bi, 0, 0, 1);
        lemma_carry_step(lo_a2 as int, hi_a2 as int, a.v@[2] * bi, 0, 0, 2);
        lemma_carry_step(lo_a3 as int, hi_a3 as int, a.v@[3] * bi, 0, 0, 3);
        lemma_carry_step(lo_a4 as int, hi_a4 as int, a.v@[4] * bi, 0, 0, 4);
        lemma_carry_step(lo_a5 as int, hi_a5 as int, a.v@[5] * bi, 0, 0, 5);
        lemma_carry_step(s1 as int, c1 as int, t@[1] as int, hi_a0 as int, 0, 1);
        lemma_carry_step(s2 as int, c2 as int, t@[2] as int, hi_a1 as int, c1 as int, 2);
        lemma_carry_step(s3 as int, c3 as int, t@[3] as int, hi_a2 as int, c2 as int, 3);
        lemma_carry_step(s4 as int, c4 as int, t@[4] as int, hi_a3 as int, c3 as int, 4);
        lemma_carry_step(s5 as int, c5 as int, t@[5] as int, hi_a4 as int, c4 as int, 5);
        lemma_carry_step(s6 as int, 0, hi_a5 as int, c5 as int, 0, 6);
        lemma_carry_step(u0 as int, d0 as int, t@[0] as int, lo_a0 as int, 0, 0);
        lemma_carry_step(u1 as int, d1 as int, s1 as int, lo_a1 as int, d0 as int, 1);
        lemma_carry_step(u2 as int, d2 as int, s2 as int, lo_a2 as int, d1 as int, 2);
        lemma_carry_step(u3 as int, d3 as int, s3 as int, lo_a3 as int, d2 as int, 3);
        lemma_carry_step(u4 as int, d4 as int, s4 as int, lo_a4 as int, d3 as int, 4);
        lemma_carry_step(u5 as int, d5 as int, s5 as int, lo_a5 as int, d4 as int, 5);
        lemma_carry_step(u6 as int, 0, s6 as int, d5 as int, 0, 6);
        lemma_w6_scalar_product(a.v, bi as int);
        lemma_w6_weighted(*t);
        lemma_w7_weighted(u@);
        assert(pow64(0) == 1);
        assert(limbs_val(u@, 0, 7) == limbs_val(t@, 0, 6) + w6val(a.v) * bi);
    }
    u
}

/// Second half of an unrolled CIOS round: pick the Montgomery digit
/// m = u[0] * N' mod 2^64, fold in m * N through the same two carry
/// chains, and drop the cancelled low word — a division by 2^64.
#[verifier::rlimit(100)]
pub(crate) fn round_reduce(u: &[u64; 7]) -> (r: [u64; 6])
    requires
        u@[6] < 0x3402_23d4_72ff_cd38,
    ensures
        (limbs_val(r@, 0, 6) * p64()) % n_val() == limbs_val(u@, 0, 7) % n_val(),
        limbs_val(r@, 0, 6) * p64() <= limbs_val(u@, 0, 7) + (p64() - 1) * n_val(),
{
    // The Montgomery quotient digit.
    let m: u64 = u[0].wrapping_mul(N_PRIME);
    // Full products of each limb of N with m.
    let (lo_n0, hi_n0) = mul_wide(N[0], m);
    let (lo_n1, hi_n1) = mul_wide(N[1], m);
    let (lo_n2, hi_n2) = mul_wide(N[2], m);
    let (lo_n3, hi_n3) = mul_wide(N[3], m);
    let (lo_n4, hi_n4) = mul_wide(N[4], m);
    let (lo_n5, hi_n5) = mul_wide(N[5], m);
    proof {
        lemma_hi_digit_small(
            lo_n5 as int,
            hi_n5 as int,
            N@[5] as int,
            m as int,
            0x1a01_11ea_397f_e69b,
        );
    }
    // High-word trace of the reduction.
    let (v1, e1) = carrying_add_w(u[1], hi_n0, 0);
    let (v2, e2) = carrying_add_w(u[2], hi_n1, e1);
    let (v3, e3) = carrying_add_w(u[3], hi_n2, e2);
    let (v4, e4) = carrying_add_w(u[4], hi_n3, e3);
    let (v5, e5) = carrying_add_w(u[5], hi_n4, e4);
    let v6a: u64 = hi_n5 + e5;
    let v6: u64 = v6a + u[6];
    // Low-word trace of the reduction: the low limb cancels to zero and is
    // dropped, which divides the accumulator by 2^64.
    let (w0, f0) = carrying_add_w(u[0], lo_n0, 0);
    let (o0, f1) = carrying_add_w(v1, lo_n1, f0);
    let (o1, f2) = carrying_add_w(v2, lo_n2, f1);
    let (o2, f3) = carrying_add_w(v3, lo_n3, f2);
    let (o3, f4) = carrying_add_w(v4, lo_n4, f3);
    let (o4, f5) = carrying_add_w(v5, lo_n5, f4);
    let o5: u64 = v6 + f5;
    let r = [o0, o1, o2, o3, o4, o5];
    proof {
        let nv = n_val();
        let p = p64();
        let uval = limbs_val(u@, 0, 7);
        let rval = limbs_val(r@, 0, 6);
        lemma_mul_is_commutative(p, hi_n0 as int);
        lemma_mul_is_commutative(p, hi_n1 as int);
        lemma_mul_is_commutative(p, hi_n2 as int);
        lemma_mul_is_commutative(p, hi_n3 as int);
        lemma_mul_is_commutative(p, hi_n4 as int);
        lemma_mul_is_commutative(p, hi_n5 as int);
        lemma_carry_step(lo_n0 as int, hi_n0 as int, N@[0] * m, 0, 0, 0);
        lemma_carry_step(lo_n1 as int, hi_n1 as int, N@[1] * m, 0, 0, 1);
        lemma_carry_step(lo_n2 as int, hi_n2 as int, N@[2] * m, 0, 0, 2);
        lemma_carry_step(lo_n3 as int, hi_n3 as int, N@[3] * m, 0, 0, 3);
        lemma_carry_step(lo_n4 as int, hi_n4 as int, N@[4] * m, 0, 0, 4);
        lemma_carry_step(lo_n5 as int, hi_n5 as int, N@[5] * m, 0, 0, 5);
        lemma_carry_step(v1 as int, e1 as int, u@[1] as int, hi_n0 as int, 0, 1);
        lemma_carry_step(v2 as int, e2 as int, u@[2] as int, hi_n1 as int, e1 as int, 2);
        lemma_carry_step(v3 as int, e3 as int, u@[3] as int, hi_n2 as int, e2 as int, 3);
        lemma_carry_step(v4 as int, e4 as int, u@[4] as int, hi_n3 as int, e3 as int, 4);
        lemma_carry_step(v5 as int, e5 as int, u@[5] as int, hi_n4 as int, e4 as int, 5);
        lemma_carry_step(v6a as int, 0, hi_n5 as int, e5 as int, 0, 6);
        lemma_carry_step(v6 as int, 0, v6a as int, u@[6] as int, 0, 6);
        lemma_carry_step(w0 as int, f0 as int, u@[0] as int, lo_n0 as int, 0, 0);
        lemma_carry_step(o0 as int, f1 as int, v1 as int, lo_n1 as int, f0 as int, 1);
        lemma_carry_step(o1 as int, f2 as int, v2 as int, lo_n2 as int, f1 as int, 2);
        lemma_carry_step(o2 as int, f3 as int, v3 as int, lo_n3 as int, f2 as int, 3);
        lemma_carry_step(o3 as int, f4 as int, v4 as int, lo_n4 as int, f3 as int, 4);
        lemma_carry_step(o4 as int, f5 as int, v5 as int, lo_n5 as int, f4 as int, 5);
        lemma_carry_step(o5 as int, 0, v6 as int, f5 as int, 0, 6);
        lemma_w6_scalar_product(N, m as int);
        crate::arith::lemma_n_const();
        lemma_w7_weighted(u@);
        assert(pow64(0) == 1);
        // The low word cancels: m was chosen to make it so.
        lemma_fundamental_div_mod_converse_mod(u@[0] + lo_n0, p, f0 as int, w0 as int);
        lemma_mod_multiples_vanish(-(hi_n0 as int), N@[0] * m + u@[0], p);
        lemma_m_cancels(u@[0] as int, m as int);
        lemma_mul_is_commutative(m as int, 0xb9fe_ffff_ffff_aaab);
        assert(w0 == 0u64);
        // The eight-word identity: r * 2^64 == u + m * N.
        assert(w0 + o0 * pow64(1) + o1 * pow64(2) + o2 * pow64(3) + o3 * pow64(4) + o4 * pow64(5)
            + o5 * pow64(6) == uval + limbs_val(N@, 0, 6) * m);
        lemma_w6_shift_up(r);
        assert(rval * p == uval + nv * m);
        // Congruence modulo N, and the bound from m <= 2^64 - 1.
        lemma_mul_is_commutative(nv, m as int);
        lemma_mod_multiples_vanish(m as int, uval, nv);
        lemma_mul_inequality(m as int, p - 1, nv);
        lemma_mul_is_commutative(m as int, nv);
        lemma_mul_is_commutative(p - 1, nv);
    }
    r
}

/// One fully unrolled CIOS round: starting from a running accumulator t
/// below 2N, fold in a * bi, cancel the low limb with the Montgomery
/// digit, and drop it.  The result r satisfies
/// r * 2^64 == t + a*bi + m*N, so r stays below 2N and r * 2^64 is
/// congruent to t + a*bi modulo N.
pub(crate) fn mont_round(t: &[u64; 6], a: &W6x64, bi: u64) -> (r: [u64; 6])
    requires
        limbs_val(t@, 0, 6) < 2 * n_val(),
        w6val(a.v) < n_val(),
    ensures
        limbs_val(r@, 0, 6) < 2 * n_val(),
        (limbs_val(r@, 0, 6) * p64()) % n_val() == (limbs_val(t@, 0, 6) + w6val(a.v) * bi)
            % n_val(),
{
    let u = round_mul_acc(t, a, bi);
    let r = round_reduce(&u);
    proof {
        let nv = n_val();
        let p = p64();
        let tv = limbs_val(t@, 0, 6);
        let av = w6val(a.v);
        let rval = limbs_val(r@, 0, 6);
        lemma_limbs_val_nonneg(r@, 0, 6);
        lemma_limbs_val_nonneg(t@, 0, 6);
        lemma_limbs_val_nonneg(a.v@, 0, 6);
        // r * 2^64 <= (t + a*bi) + (2^64 - 1) * N < 2^64 * 2N.
        assert(rval * p <= p * (2 * nv - 1)) by (nonlinear_arith)
            requires
                rval * p <= tv + av * bi + (p - 1) * nv,
                0 <= tv <= 2 * nv - 1,
                0 <= av <= nv - 1,
                0 <= bi < p,
                1 <= nv,
        ;
        lemma_mul_is_commutative(rval, p);
        lemma_mul_is_commutative(2 * nv - 1, p);
        lemma_mul_inequality_converse(rval, 2 * nv - 1, p);
    }
    r
}

/// Montgomery multiplication, flattened tier: a drop-in replacement for
/// the reference tier with every limb loop unrolled.  Identical contract:
/// for reduced Montgomery-domain operands the output is the canonical
/// a * b * R^{-1} mod N, bit-identical to the reference tier's output.
pub fn fe_mont_mul_raw(result: &mut W6x64, a: &W6x64, b: &W6x64)
    requires
        w6val(a.v) < n_val(),
        w6val(b.v) < n_val(),
    ensures
        w6val(final(result).v) < n_val(),
        (w6val(final(result).v) * r_val()) % n_val() == (w6val(a.v) * w6val(b.v)) % n_val(),
        w6val(final(result).v) == (w6val(a.v) * w6val(b.v) * rinv_val()) % n_val(),
{
    let ghost av = w6val(a.v);
    let mut t = [0u64; 6];
    proof {
        assert(forall|k: int| 0 <= k < 6 ==> #[trigger] t@[k] == 0u64);
        lemma_limbs_val_zero(t@, 0, 6);
        assert(limbs_val(t@, 0, 6) * pow64(0) == 0) by (nonlinear_arith)
            requires
                limbs_val(t@, 0, 6) == 0,
        ;
        assert(av * limbs_val(b.v@, 0, 0) == 0) by (nonlinear_arith)
            requires
                limbs_val(b.v@, 0, 0) == 0,
        ;
    }
    for i in 0..6usize
        invariant
            w6val(a.v) < n_val(),
            w6val(b.v) < n_val(),
            av == w6val(a.v),
            limbs_val(t@, 0, 6) < 2 * n_val(),
            (limbs_val(t@, 0, 6) * pow64(i as nat)) % n_val() == (av * limbs_val(
                b.v@,
                0,
                i as int,
            )) % n_val(),
    {
        let ghost t_old = limbs_val(t@, 0, 6);
        t = mont_round(&t, a, b.v[i]);
        proof {
            let nv = n_val();
            let p = p64();
            let pw = pow64(i as nat);
            let bi = b.v@[i as int];
            let tn = limbs_val(t@, 0, 6);
            lemma_pow64_pos(i as nat);
            assert(pow64((i + 1) as nat) == p * pw);
            // Scale the round identity by 2^(64 i) and fold in the
            // partial-product invariant.
            lemma_mod_mul_both(tn * p, t_old + av * bi, pw, nv);
            assert((tn * p) * pw == tn * (p * pw)) by (nonlinear_arith);
            assert((t_old + av * bi) * pw == t_old * pw + (av * bi) * pw) by (nonlinear_arith);
            lemma_add_mod_noop(t_old * pw, (av * bi) * pw, nv);
            lemma_add_mod_noop(av * limbs_val(b.v@, 0, i as int), (av * bi) * pw, nv);
            lemma_limbs_val_snoc(b.v@, 0, i as int);
            assert(av * limbs_val(b.v@, 0, i + 1) == av * limbs_val(b.v@, 0, i as int) + (av * bi)
                * pw) by (nonlinear_arith)
                requires
                    limbs_val(b.v@, 0, i + 1) == limbs_val(b.v@, 0, i as int) + bi * pow64(
                        i as nat,
                    ),
                    pw == pow64(i as nat),
            ;
        }
    }
    // Final conditional subtraction of N; the branch mimics a conditional
    // move and is not constant-time.
    let (dec, borrow) = sub6(&t, &N);
    if borrow {
        result.v = t;
    } else {
        result.v = dec;
    }
    proof {
        let bv = w6val(b.v);
        let nv = n_val();
        let rv = r_val();
        let tv = limbs_val(t@, 0, 6);
        let ov = w6val(result.v);
        crate::arith::lemma_n_const();
        lemma_pow64_6_is_r();
        lemma_limbs_val_nonneg(t@, 0, 6);
        lemma_limbs_val_nonneg(dec@, 0, 6);
        lemma_limbs_val_bound(dec@, 0, 6);
        lemma_reduce_once(tv);
        if borrow {
            assert(ov == tv);
            assert(tv < nv);
        } else {
            assert(ov == tv - nv);
        }
        assert(ov == tv % nv);
        lemma_mul_mod_noop_left(tv, rv, nv);
        assert((ov * rv) % nv == (av * bv) % nv);
        lemma_mont_result(ov, av * bv);
    }
}

} // verus!
