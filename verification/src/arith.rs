//! The executable kernel: six-limb field elements over the BLS12-381 base
//! field prime, with modular addition, subtraction, Montgomery
//! multiplication (CIOS) and domain conversion.
//!
//! Every operation assumes reduced operands (value < N) and guarantees a
//! reduced result.  The final conditional correction in each operation is a
//! per-limb mask select rather than a branch, mirroring the carry-chain
//! style of the kernel; this is not a constant-time guarantee.
use vstd::prelude::*;

pub use crate::flat::fe_mont_mul_raw;

verus! {

use crate::model::{
    limbs_val,
    n_val,
    p64,
    pow64,
    r2_val,
    r_val,
    rinv_val,
    w6val,
    lemma_limbs_val_bound,
    lemma_limbs_val_nonneg,
    lemma_limbs_val_split,
    lemma_limbs_val_update,
    lemma_pow64_adds,
    lemma_pow64_pos,
    lemma_pow64_6_is_r,
    lemma_r2_mod,
    lemma_r_cancel,
    lemma_reduce_once,
};
use vstd::arithmetic::div_mod::{
    lemma_fundamental_div_mod,
    lemma_fundamental_div_mod_converse_mod,
    lemma_mod_multiples_vanish,
    lemma_mul_mod_noop_left,
    lemma_mul_mod_noop_right,
    lemma_small_mod,
};
use vstd::arithmetic::mul::{
    lemma_mul_is_commutative,
    lemma_mul_upper_bound,
};

/// A 384-bit value as six 64-bit words, least-significant word first.
#[derive(Clone, Copy, Debug)]
pub struct W6x64 {
    pub v: [u64; 6],
}

impl PartialEq for W6x64 {
    /// Limb-wise equality.  (Not a constant-time comparison.)
    fn eq(&self, o: &W6x64) -> (r: bool) {
        let r = self.v[0] == o.v[0] && self.v[1] == o.v[1] && self.v[2] == o.v[2] && self.v[3]
            == o.v[3] && self.v[4] == o.v[4] && self.v[5] == o.v[5];
        proof {
            vstd::array::axiom_array_ext_equal(self.v, o.v);
            if r {
                assert(self.v =~= o.v);
            }
        }
        r
    }
}

impl Eq for W6x64 {

}

impl vstd::std_specs::cmp::PartialEqSpecImpl for W6x64 {
    open spec fn obeys_eq_spec() -> bool {
        true
    }

    open spec fn eq_spec(&self, o: &W6x64) -> bool {
        self.v == o.v
    }
}

impl Default for W6x64 {
    /// The all-zero limb vector.
    fn default() -> (r: Self)
        ensures
            forall|i: int| 0 <= i < 6 ==> r.v@[i] == 0u64,
            w6val(r.v) == 0,
    {
        let r = W6x64 { v: [0u64; 6] };
        proof {
            lemma_limbs_val6_eval(r.v);
        }
        r
    }
}

/// The BLS12-381 field prime modulus N, least significant limb first.
pub const N: [u64; 6] = [
    0xb9fe_ffff_ffff_aaab,
    0x1eab_fffe_b153_ffff,
    0x6730_d2a0_f6b0_f624,
    0x6477_4b84_f385_12bf,
    0x4b1b_a7b6_434b_acd7,
    0x1a01_11ea_397f_e69a,
];

/// 2^384 - N, least significant limb first: the wrap-around fix-up used by
/// subtraction.
pub const CORRECTION: [u64; 6] = [
    0x4601_0000_0000_5555,
    0xe154_0001_4eac_0000,
    0x98cf_2d5f_094f_09db,
    0x9b88_b47b_0c7a_ed40,
    0xb4e4_5849_bcb4_5328,
    0xe5fe_ee15_c680_1965,
];

/// N' = -N^{-1} mod 2^64: the per-round reduction constant of CIOS.
pub const N_PRIME: u64 = 0x89f3_fffc_fffc_fffd;

/// Unfold the value of a six-limb array into its limb polynomial.
proof fn lemma_limbs_val6_eval(w: [u64; 6])
    ensures
        w6val(w) == w@[0] + p64() * (w@[1] + p64() * (w@[2] + p64() * (w@[3] + p64() * (w@[4]
            + p64() * w@[5])))),
{
    reveal_with_fuel(limbs_val, 8);
}

/// The modulus constant denotes N.
pub(crate) proof fn lemma_n_const()
    ensures
        limbs_val(N@, 0, 6) == n_val(),
{
    lemma_limbs_val6_eval(N);
}

/// The correction constant denotes 2^384 - N.
proof fn lemma_correction_const()
    ensures
        limbs_val(CORRECTION@, 0, 6) == r_val() - n_val(),
{
    lemma_limbs_val6_eval(CORRECTION);
    lemma_pow64_6_is_r();
    reveal_with_fuel(pow64, 8);
}

/// Add with carry: the returned word and carry-out denote exactly
/// a + b + carry-in.
pub(crate) fn carrying_add(a: u64, b: u64, c: bool) -> (r: (u64, bool))
    ensures
        r.0 + (if r.1 {
            p64()
        } else {
            0int
        }) == a + b + (if c {
            1int
        } else {
            0int
        }),
{
    let s: u128 = a as u128 + b as u128 + (if c {
        1u128
    } else {
        0u128
    });
    if s >= 0x1_0000_0000_0000_0000u128 {
        (((s - 0x1_0000_0000_0000_0000u128) as u64), true)
    } else {
        ((s as u64), false)
    }
}

/// Add with a numeric carry word: like `carrying_add`, but the carry in and
/// out are 0-or-1 words, as the unrolled carry chains keep them.
pub(crate) fn carrying_add_w(a: u64, b: u64, cin: u64) -> (r: (u64, u64))
    requires
        cin <= 1,
    ensures
        r.0 + r.1 * p64() == a + b + cin,
        r.1 <= 1,
{
    let s: u128 = a as u128 + b as u128 + cin as u128;
    if s >= 0x1_0000_0000_0000_0000u128 {
        (((s - 0x1_0000_0000_0000_0000u128) as u64), 1u64)
    } else {
        ((s as u64), 0u64)
    }
}

/// Subtract with borrow: the returned word and borrow-out denote exactly
/// a - b - borrow-in.
pub(crate) fn borrowing_sub(a: u64, b: u64, c: bool) -> (r: (u64, bool))
    ensures
        r.0 - (if r.1 {
            p64()
        } else {
            0int
        }) == a - b - (if c {
            1int
        } else {
            0int
        }),
{
    let rhs: u128 = b as u128 + (if c {
        1u128
    } else {
        0u128
    });
    if (a as u128) >= rhs {
        (((a as u128 - rhs) as u64), false)
    } else {
        (((a as u128 + 0x1_0000_0000_0000_0000u128 - rhs) as u64), true)
    }
}

/// Multiply-accumulate: split a*b + c1 + c2 into a low and a high word.
/// This is the full-precision 64x64 -> 128 step of CIOS; the sum never
/// overflows 128 bits because (2^64-1)^2 + 2*(2^64-1) == 2^128 - 1.
pub(crate) fn macc(a: u64, b: u64, c1: u64, c2: u64) -> (r: (u64, u64))
    ensures
        r.0 + p64() * r.1 == a * b + c1 + c2,
{
    proof {
        lemma_mul_upper_bound(
            a as int,
            0xffff_ffff_ffff_ffff,
            b as int,
            0xffff_ffff_ffff_ffff,
        );
    }
    let p: u128 = (a as u128) * (b as u128) + (c1 as u128) + (c2 as u128);
    let lo = (p % 0x1_0000_0000_0000_0000u128) as u64;
    let hi = (p / 0x1_0000_0000_0000_0000u128) as u64;
    proof {
        lemma_fundamental_div_mod(p as int, p64());
        assert(p / 0x1_0000_0000_0000_0000u128 < 0x1_0000_0000_0000_0000u128) by (nonlinear_arith)
            requires
                p <= 0xffff_ffff_ffff_ffff_ffff_ffff_ffff_ffffu128,
        ;
    }
    (lo, hi)
}

/// Wide multiply: split a*b into a low and a high word.
pub(crate) fn mul_wide(a: u64, b: u64) -> (r: (u64, u64))
    ensures
        r.0 + p64() * r.1 == a * b,
{
    macc(a, b, 0, 0)
}

/// Propagate a carry across six words: raw 384-bit addition with carry-out.
pub(crate) fn add6(x: &[u64; 6], y: &[u64; 6]) -> (r: ([u64; 6], bool))
    ensures
        limbs_val(r.0@, 0, 6) + (if r.1 {
            pow64(6)
        } else {
            0int
        }) == limbs_val(x@, 0, 6) + limbs_val(y@, 0, 6),
{
    let mut out = [0u64; 6];
    let mut carry = false;
    for i in 0..6usize
        invariant
            limbs_val(out@, 0, i as int) + (if carry {
                pow64(i as nat)
            } else {
                0int
            }) == limbs_val(x@, 0, i as int) + limbs_val(y@, 0, i as int),
    {
        let ghost out0 = out@;
        let ghost cin: int = if carry {
            1int
        } else {
            0int
        };
        let (s, c) = carrying_add(x[i], y[i], carry);
        out[i] = s;
        carry = c;
        proof {
            let gi = i as int;
            crate::model::lemma_limbs_val_update(out0, 0, gi, gi, s);
            crate::model::lemma_limbs_val_snoc(out@, 0, gi);
            crate::model::lemma_limbs_val_snoc(x@, 0, gi);
            crate::model::lemma_limbs_val_snoc(y@, 0, gi);
            crate::model::lemma_carry_step(
                s as int,
                if c {
                    1int
                } else {
                    0int
                },
                x@[gi] as int,
                y@[gi] as int,
                cin,
                i as nat,
            );
        }
    }
    (out, carry)
}

/// Propagate a borrow across six words: raw 384-bit subtraction with
/// borrow-out.
pub(crate) fn sub6(x: &[u64; 6], y: &[u64; 6]) -> (r: ([u64; 6], bool))
    ensures
        limbs_val(r.0@, 0, 6) - (if r.1 {
            pow64(6)
        } else {
            0int
        }) == limbs_val(x@, 0, 6) - limbs_val(y@, 0, 6),
{
    let mut out = [0u64; 6];
    let mut borrow = false;
    for i in 0..6usize
        invariant
            limbs_val(out@, 0, i as int) - (if borrow {
                pow64(i as nat)
            } else {
                0int
            }) == limbs_val(x@, 0, i as int) - limbs_val(y@, 0, i as int),
    {
        let ghost out0 = out@;
        let ghost bin: int = if borrow {
            1int
        } else {
            0int
        };
        let (s, bo) = borrowing_sub(x[i], y[i], borrow);
        out[i] = s;
        borrow = bo;
        proof {
            let gi = i as int;
            crate::model::lemma_limbs_val_update(out0, 0, gi, gi, s);
            crate::model::lemma_limbs_val_snoc(out@, 0, gi);
            crate::model::lemma_limbs_val_snoc(x@, 0, gi);
            crate::model::lemma_limbs_val_snoc(y@, 0, gi);
            crate::model::lemma_borrow_step(
                s as int,
                if bo {
                    1int
                } else {
                    0int
                },
                x@[gi] as int,
                y@[gi] as int,
                bin,
                i as nat,
            );
        }
    }
    (out, borrow)
}

/// Branchless selection between two limb vectors, driven by a single flag:
/// each word is chosen through an all-ones/all-zeros bitmask.
pub(crate) fn select6(pick_y: bool, x: &[u64; 6], y: &[u64; 6]) -> (r: [u64; 6])
    ensures
        r@ == if pick_y {
            y@
        } else {
            x@
        },
{
    let m: u64 = if pick_y {
        0xffff_ffff_ffff_ffffu64
    } else {
        0u64
    };
    let mut out = [0u64; 6];
    for i in 0..6usize
        invariant
            m == (if pick_y {
                0xffff_ffff_ffff_ffffu64
            } else {
                0u64
            }),
            forall|j: int|
                0 <= j < i ==> out@[j] == (if pick_y {
                    y@[j]
                } else {
                    x@[j]
                }),
    {
        out[i] = (!m & x[i]) | (m & y[i]);
        proof {
            lemma_mask_select(m, x@[i as int], y@[i as int]);
        }
    }
    proof {
        if pick_y {
            assert(out@ =~= y@);
        } else {
            assert(out@ =~= x@);
        }
    }
    out
}

/// Modular addition: result == (a + b) mod N, for reduced operands.
///
/// The raw sum and the trial subtraction of N are both computed; the final
/// choice is a per-word mask select on the trial's borrow, not a branch.
pub fn fe_add(result: &mut W6x64, a: &W6x64, b: &W6x64)
    requires
        w6val(a.v) < n_val(),
        w6val(b.v) < n_val(),
    ensures
        w6val(final(result).v) == (w6val(a.v) + w6val(b.v)) % n_val(),
        w6val(final(result).v) < n_val(),
{
    let (sum, carry) = add6(&a.v, &b.v);
    let (trial, borrow) = sub6(&sum, &N);
    let out = select6(borrow, &trial, &sum);
    result.v = out;
    proof {
        let av = w6val(a.v);
        let bv = w6val(b.v);
        let sv = limbs_val(sum@, 0, 6);
        let tv = limbs_val(trial@, 0, 6);
        let nv = n_val();
        lemma_n_const();
        lemma_pow64_6_is_r();
        lemma_limbs_val_nonneg(sum@, 0, 6);
        lemma_limbs_val_nonneg(trial@, 0, 6);
        lemma_limbs_val_bound(trial@, 0, 6);
        assert(!carry);
        assert(sv == av + bv);
        lemma_reduce_once(av + bv);
        if borrow {
            assert(tv == sv - nv + r_val());
            assert(sv < nv);
        } else {
            assert(tv == sv - nv);
        }
    }
}

/// Modular subtraction: result == (a - b) mod N, for reduced operands.
///
/// On wrap-around (a < b) the correction constant 2^384 - N is subtracted
/// again, which equals adding N modulo 2^384; the correction operand is
/// selected per-word by a bitmask on the first borrow, not by a branch.
pub fn fe_sub(result: &mut W6x64, a: &W6x64, b: &W6x64)
    requires
        w6val(a.v) < n_val(),
        w6val(b.v) < n_val(),
    ensures
        w6val(final(result).v) == (w6val(a.v) - w6val(b.v) + n_val()) % n_val(),
        w6val(final(result).v) < n_val(),
{
    let (diff, borrow) = sub6(&a.v, &b.v);
    let zeros = [0u64; 6];
    let fix = select6(borrow, &zeros, &CORRECTION);
    let (out, borrow_fix) = sub6(&diff, &fix);
    result.v = out;
    proof {
        let av = w6val(a.v);
        let bv = w6val(b.v);
        let dv = limbs_val(diff@, 0, 6);
        let ov = limbs_val(out@, 0, 6);
        let nv = n_val();
        let rv = r_val();
        lemma_correction_const();
        lemma_pow64_6_is_r();
        lemma_limbs_val_nonneg(a.v@, 0, 6);
        lemma_limbs_val_nonneg(b.v@, 0, 6);
        lemma_limbs_val_nonneg(diff@, 0, 6);
        lemma_limbs_val_nonneg(out@, 0, 6);
        lemma_limbs_val_bound(out@, 0, 6);
        lemma_limbs_val_bound(diff@, 0, 6);
        assert(forall|i: int| 0 <= i < 6 ==> #[trigger] zeros@[i] == 0u64);
        crate::model::lemma_limbs_val_zero(zeros@, 0, 6);
        if borrow {
            // a < b: diff wrapped, out == a - b + N after undoing the wrap.
            assert(dv == av - bv + rv);
            assert(limbs_val(fix@, 0, 6) == rv - nv);
            assert(ov - (if borrow_fix {
                rv
            } else {
                0int
            }) == av - bv + nv);
            assert(!borrow_fix);
            lemma_small_mod((av - bv + nv) as nat, nv as nat);
        } else {
            // a >= b: diff is already the answer and the fix-up is zero.
            assert(limbs_val(fix@, 0, 6) == 0);
            assert(ov - (if borrow_fix {
                rv
            } else {
                0int
            }) == av - bv);
            assert(!borrow_fix);
            lemma_mod_multiples_vanish(1, av - bv, nv);
            lemma_small_mod((av - bv) as nat, nv as nat);
        }
    }
}

/// Montgomery multiplication, reference tier: loop-based CIOS (coarsely
/// integrated operand scanning).
///
/// For reduced Montgomery-domain operands this computes
/// `a * b * R^{-1} mod N` with R = 2^384: six limb-rounds each
/// multiply-accumulate `a * b[i]` into a twelve-word accumulator at offset
/// i, pick the quotient digit m = accumulator[i] * N' mod 2^64, and
/// accumulate `m * N` so that the accumulator's limb i vanishes; a final
/// conditional subtraction of N (mask-selected, not branched) produces the
/// canonical result below N.
pub fn fe_mont_mul(result: &mut W6x64, a: &W6x64, b: &W6x64)
    requires
        w6val(a.v) < n_val(),
        w6val(b.v) < n_val(),
    ensures
        w6val(final(result).v) < n_val(),
        (w6val(final(result).v) * r_val()) % n_val() == (w6val(a.v) * w6val(b.v)) % n_val(),
        w6val(final(result).v) == (w6val(a.v) * w6val(b.v) * rinv_val()) % n_val(),
{
    let mut temp = [0u64; 12];
    let ghost av = w6val(a.v);
    let ghost mut q: int = 0int;
    proof {
        assert(forall|k: int| 0 <= k < 12 ==> #[trigger] temp@[k] == 0u64);
        crate::model::lemma_limbs_val_zero(temp@, 0, 12);
        assert(av * limbs_val(b.v@, 0, 0) == 0) by (nonlinear_arith)
            requires
                limbs_val(b.v@, 0, 0) == 0,
        ;
    }
    for i in 0..6usize
        invariant
            w6val(a.v) < n_val(),
            w6val(b.v) < n_val(),
            av == w6val(a.v),
            0 <= q < pow64(i as nat),
            limbs_val(temp@, 0, 12) == av * limbs_val(b.v@, 0, i as int) + q * n_val(),
            forall|k: int| 0 <= k < i ==> #[trigger] temp@[k] == 0u64,
            forall|k: int| i + 6 <= k < 12 ==> #[trigger] temp@[k] == 0u64,
    {
        let bi = b.v[i];
        let ghost t_round = temp@;
        let ghost v_round = limbs_val(temp@, 0, 12);
        proof {
            lemma_limbs_val_nonneg(a.v@, 0, 6);
            lemma_limbs_val_nonneg(b.v@, 0, 6);
            assert((limbs_val(a.v@, 0, 0) * bi) * pow64(i as nat) == 0) by (nonlinear_arith)
                requires
                    limbs_val(a.v@, 0, 0) == 0,
            ;
        }
        // Multiply-accumulate a[*] * b[i] into the window at offset i.
        let mut carry: u64 = 0;
        for j in 0..6usize
            invariant
                i < 6,
                limbs_val(temp@, 0, 12) + carry * pow64((i + j) as nat) == v_round + (limbs_val(
                    a.v@,
                    0,
                    j as int,
                ) * bi) * pow64(i as nat),
                forall|k: int|
                    0 <= k < 12 && !(i <= k < i + j) ==> #[trigger] temp@[k] == t_round[k],
        {
            let ghost t_prev = temp@;
            let ghost v_prev = limbs_val(temp@, 0, 12);
            let ghost cin = carry;
            let (lo, hi) = macc(a.v[j], bi, temp[i + j], carry);
            temp[i + j] = lo;
            carry = hi;
            proof {
                let gij = (i + j) as int;
                crate::model::lemma_limbs_val_update(t_prev, 0, 12, gij, lo);
                crate::model::lemma_limbs_val_snoc(a.v@, 0, j as int);
                crate::model::lemma_macc_step(
                    t_prev[gij] as int,
                    lo as int,
                    hi as int,
                    a.v@[j as int] as int,
                    bi as int,
                    cin as int,
                    v_prev,
                    limbs_val(temp@, 0, 12),
                    limbs_val(a.v@, 0, j as int),
                    v_round,
                    i as nat,
                    j as nat,
                );
            }
        }
        // Fold the carry into the overflow word, which is still zero.
        let ghost t_mid0 = temp@;
        proof {
            assert(t_mid0[i + 6] == t_round[i + 6]);
            assert(t_mid0[i + 6] == 0u64);
        }
        let folded = temp[i + 6].wrapping_add(carry);
        temp[i + 6] = folded;
        let ghost v_mid = limbs_val(temp@, 0, 12);
        proof {
            crate::model::lemma_limbs_val_update(t_mid0, 0, 12, i + 6, folded);
            assert(folded == carry);
            lemma_mul_is_commutative(carry as int, pow64((i + 6) as nat));
            assert(v_mid == v_round + (av * bi) * pow64(i as nat));
        }
        // The Montgomery quotient digit for this round.
        let m: u64 = temp[i].wrapping_mul(N_PRIME);
        // Multiply-accumulate m * N[*] into the same window; limb i of the
        // accumulator becomes exactly zero.
        let ghost t_mid = temp@;
        proof {
            assert((limbs_val(N@, 0, 0) * m) * pow64(i as nat) == 0) by (nonlinear_arith)
                requires
                    limbs_val(N@, 0, 0) == 0,
            ;
        }
        let mut carry: u64 = 0;
        for j in 0..6usize
            invariant
                i < 6,
                m == (t_mid[i as int] * N_PRIME) % p64(),
                t_mid == temp@ || j > 0,
                j == 0 ==> carry == 0u64,
                limbs_val(temp@, 0, 12) + carry * pow64((i + j) as nat) == v_mid + (limbs_val(
                    N@,
                    0,
                    j as int,
                ) * m) * pow64(i as nat),
                forall|k: int|
                    0 <= k < 12 && !(i <= k < i + j) ==> #[trigger] temp@[k] == t_mid[k],
                j > 0 ==> temp@[i as int] == 0u64,
        {
            let ghost t_prev = temp@;
            let ghost v_prev = limbs_val(temp@, 0, 12);
            let ghost cin = carry;
            let (lo, hi) = macc(N[j], m, temp[i + j], carry);
            temp[i + j] = lo;
            carry = hi;
            proof {
                let gij = (i + j) as int;
                crate::model::lemma_limbs_val_update(t_prev, 0, 12, gij, lo);
                crate::model::lemma_limbs_val_snoc(N@, 0, j as int);
                crate::model::lemma_macc_step(
                    t_prev[gij] as int,
                    lo as int,
                    hi as int,
                    N@[j as int] as int,
                    m as int,
                    cin as int,
                    v_prev,
                    limbs_val(temp@, 0, 12),
                    limbs_val(N@, 0, j as int),
                    v_mid,
                    i as nat,
                    j as nat,
                );
                if j == 0 {
                    // m was chosen so that the low limb cancels.
                    lemma_fundamental_div_mod_converse_mod(
                        N@[0] * m + t_prev[gij],
                        p64(),
                        hi as int,
                        lo as int,
                    );
                    crate::model::lemma_m_cancels(t_prev[gij] as int, m as int);
                    lemma_mul_is_commutative(m as int, 0xb9fe_ffff_ffff_aaab);
                    assert(lo == 0u64);
                }
            }
        }
        // Fold the carry into the overflow word; the accumulator's total
        // value is small enough that this cannot wrap.
        let ghost t_mid2 = temp@;
        let ghost v_mid2 = limbs_val(temp@, 0, 12);
        let ghost bv1 = limbs_val(b.v@, 0, i + 1);
        let ghost q1 = q + m * pow64(i as nat);
        proof {
            lemma_n_const();
            crate::model::lemma_limbs_val_snoc(b.v@, 0, i as int);
            crate::model::lemma_round_total(
                av,
                limbs_val(b.v@, 0, i as int),
                bi as int,
                q,
                m as int,
                i as nat,
            );
            assert(v_mid2 + carry * pow64((i + 6) as nat) == av * bv1 + q1 * n_val());
            assert(q1 < pow64((i + 1) as nat)) by (nonlinear_arith)
                requires
                    q1 == q + m * pow64(i as nat),
                    0 <= q < pow64(i as nat),
                    0 <= m < p64(),
                    pow64((i + 1) as nat) == p64() * pow64(i as nat),
            ;
            assert(0 <= q1) by (nonlinear_arith)
                requires
                    q1 == q + m * pow64(i as nat),
                    0 <= q,
                    0 <= m,
                    0 < pow64(i as nat),
            ;
            lemma_limbs_val_bound(b.v@, 0, i + 1);
            lemma_limbs_val_nonneg(b.v@, 0, i + 1);
            crate::model::lemma_total_bound(av, bv1, q1, (i + 1) as nat);
            crate::model::lemma_pow64_adds(6, (i + 1) as nat);
            crate::model::lemma_high_limb_bound(
                t_mid2,
                i + 6,
                carry as int,
                av * bv1 + q1 * n_val(),
            );
        }
        let folded2 = temp[i + 6].wrapping_add(carry);
        temp[i + 6] = folded2;
        proof {
            crate::model::lemma_limbs_val_update(t_mid2, 0, 12, i + 6, folded2);
            assert(folded2 == t_mid2[i + 6] + carry);
            lemma_mul_is_commutative(carry as int, pow64((i + 6) as nat));
            assert(limbs_val(temp@, 0, 12) == av * bv1 + q1 * n_val());
            q = q1;
            // Re-establish the zero limbs for the next round.
            assert forall|k: int| 0 <= k < i + 1 implies #[trigger] temp@[k] == 0u64 by {
                if k < i {
                    assert(t_mid2[k] == t_mid[k]);
                    assert(t_mid[k] == t_mid0[k]);
                    assert(t_mid0[k] == t_round[k]);
                }
            }
            assert forall|k: int| i + 7 <= k < 12 implies #[trigger] temp@[k] == 0u64 by {
                assert(t_mid2[k] == t_mid[k]);
                assert(t_mid[k] == t_mid0[k]);
                assert(t_mid0[k] == t_round[k]);
            }
        }
    }
    // The low six limbs are zero: the top half is the accumulator value
    // divided by R, which lies in [0, 2N).
    let t6 = [temp[6], temp[7], temp[8], temp[9], temp[10], temp[11]];
    proof {
        let bv = w6val(b.v);
        let nv = n_val();
        let rv = r_val();
        let tv = limbs_val(t6@, 0, 6);
        assert(forall|k: int| 0 <= k < 6 ==> #[trigger] t6@[k] == temp@[k + 6]);
        crate::model::lemma_limbs_val_shift(t6@, temp@, 0, 6, 6);
        crate::model::lemma_limbs_val_split(temp@, 0, 6, 12);
        crate::model::lemma_limbs_val_zero(temp@, 0, 6);
        lemma_pow64_6_is_r();
        assert(rv * tv == av * bv + q * nv);
        lemma_limbs_val_nonneg(a.v@, 0, 6);
        lemma_limbs_val_nonneg(b.v@, 0, 6);
        assert(tv * rv < (2 * nv) * rv) by (nonlinear_arith)
            requires
                rv * tv == av * bv + q * nv,
                0 <= av < nv,
                0 <= bv < nv,
                0 <= q < rv,
                0 < nv < rv,
        ;
        lemma_limbs_val_nonneg(t6@, 0, 6);
        vstd::arithmetic::mul::lemma_mul_strict_inequality_converse(tv, 2 * nv, rv);
        assert(tv < 2 * nv);
    }
    let (dec, borrow) = sub6(&t6, &N);
    let out = select6(borrow, &dec, &t6);
    result.v = out;
    proof {
        let bv = w6val(b.v);
        let nv = n_val();
        let rv = r_val();
        let tv = limbs_val(t6@, 0, 6);
        let ov = limbs_val(out@, 0, 6);
        lemma_n_const();
        lemma_pow64_6_is_r();
        lemma_limbs_val_nonneg(t6@, 0, 6);
        lemma_limbs_val_nonneg(dec@, 0, 6);
        lemma_limbs_val_bound(dec@, 0, 6);
        crate::model::lemma_reduce_once(tv);
        if borrow {
            assert(ov == tv);
            assert(tv < nv);
        } else {
            assert(ov == tv - nv);
        }
        assert(ov == tv % nv);
        // ov * R == a * b (mod N).
        lemma_mul_mod_noop_left(tv, rv, nv);
        lemma_mul_is_commutative(tv, rv);
        lemma_mod_multiples_vanish(q, av * bv, nv);
        lemma_mul_is_commutative(q, nv);
        assert((ov * rv) % nv == (av * bv) % nv);
        crate::model::lemma_mont_result(ov, av * bv);
    }
}

/// R^2 mod N, least significant limb first: multiplying by it in the
/// Montgomery domain converts a normal-domain value into Montgomery form.
pub const R_SQUARED: [u64; 6] = [
    0xf4df_1f34_1c34_1746,
    0x0a76_e6a6_09d1_04f1,
    0x8de5_476c_4c95_b6d5,
    0x67eb_88a9_939d_83c0,
    0x9a79_3e85_b519_952d,
    0x1198_8fe5_92ca_e3aa,
];

/// One, least significant limb first: multiplying by it in the Montgomery
/// domain strips one factor of R.
pub const ONE: [u64; 6] = [1, 0, 0, 0, 0, 0];

/// The conversion constant denotes (R * R) mod N.
proof fn lemma_r_squared_const()
    ensures
        limbs_val(R_SQUARED@, 0, 6) == r2_val(),
{
    lemma_limbs_val6_eval(R_SQUARED);
}

/// Convert into the Montgomery domain: result == (a * R) mod N, computed
/// as mont_mul(a, R^2 mod N).
pub fn fe_to_mont(result: &mut W6x64, a: &[u64; 6])
    requires
        limbs_val(a@, 0, 6) < n_val(),
    ensures
        w6val(final(result).v) < n_val(),
        w6val(final(result).v) == (limbs_val(a@, 0, 6) * r_val()) % n_val(),
{
    let a_w6x64 = W6x64 { v: *a };
    let r2 = W6x64 { v: R_SQUARED };
    proof {
        lemma_r_squared_const();
        lemma_r2_mod();
    }
    fe_mont_mul(result, &a_w6x64, &r2);
    proof {
        let av = limbs_val(a@, 0, 6);
        let nv = n_val();
        let rv = r_val();
        let ov = w6val(result.v);
        let y = (av * rv) % nv;
        // y * R == a * R^2 == a * (R^2 mod N) == ov * R  (mod N)
        vstd::arithmetic::div_mod::lemma_mod_bound(av * rv, nv);
        lemma_mul_mod_noop_left(av * rv, rv, nv);
        assert((av * rv) * rv == av * (rv * rv)) by (nonlinear_arith);
        lemma_mul_mod_noop_right(av, rv * rv, nv);
        assert((y * rv) % nv == (av * ((rv * rv) % nv)) % nv);
        assert((ov * rv) % nv == (av * r2_val()) % nv);
        lemma_r_cancel(ov, y);
    }
}

/// Convert out of the Montgomery domain: result == (a * R^{-1}) mod N,
/// computed as mont_mul(a, 1).  Applied to x*R mod N this recovers x.
pub fn fe_to_norm(result: &mut [u64; 6], a: &W6x64)
    requires
        w6val(a.v) < n_val(),
    ensures
        limbs_val(final(result)@, 0, 6) < n_val(),
        limbs_val(final(result)@, 0, 6) == (w6val(a.v) * rinv_val()) % n_val(),
{
    let one = W6x64 { v: ONE };
    proof {
        lemma_limbs_val6_eval(one.v);
        assert(w6val(one.v) == 1);
    }
    let mut result_w6x64 = W6x64::default();
    fe_mont_mul(&mut result_w6x64, a, &one);
    *result = result_w6x64.v;
    proof {
        assert(w6val(a.v) * 1 == w6val(a.v)) by (nonlinear_arith);
    }
}

/// Per-limb mask select: with an all-zero or all-one mask, picks x or y.
pub(crate) proof fn lemma_mask_select(m: u64, x: u64, y: u64)
    requires
        m == 0u64 || m == 0xffff_ffff_ffff_ffffu64,
    ensures
        ((!m & x) | (m & y)) == (if m == 0u64 {
            x
        } else {
            y
        }),
{
    assert(((!0u64 & x) | (0u64 & y)) == x) by (bit_vector);
    assert(((!0xffff_ffff_ffff_ffffu64 & x) | (0xffff_ffff_ffff_ffffu64 & y)) == y)
        by (bit_vector);
}

} // verus!
