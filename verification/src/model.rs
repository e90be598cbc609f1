//! Mathematical model of six-limb 384-bit integers and the Montgomery
//! constants for the BLS12-381 base field prime.
//!
//! A field element is an integer in [0, N) stored as six 64-bit limbs,
//! least-significant limb first.  Everything the executable kernel promises
//! is stated over `limbs_val` (the integer a limb window denotes) and the
//! spec-level constants below.
use vstd::prelude::*;

verus! {

use vstd::arithmetic::div_mod::{
    lemma_fundamental_div_mod_converse,
    lemma_mod_multiples_vanish,
    lemma_mul_mod_noop_left,
    lemma_mul_mod_noop_right,
    lemma_small_mod,
};
use vstd::arithmetic::mul::{
    lemma_mul_inequality,
    lemma_mul_is_commutative,
    lemma_mul_is_distributive_add,
    lemma_mul_nonnegative,
};

/// The limb radix, 2^64.
pub open spec fn p64() -> int {
    0x1_0000_0000_0000_0000
}

/// 2^(64*k): the weight of limb k.
pub open spec fn pow64(k: nat) -> int
    decreases k,
{
    if k == 0 {
        1
    } else {
        p64() * pow64((k - 1) as nat)
    }
}

/// The BLS12-381 base field prime
/// N = 0x1a0111ea397fe69a4b1ba7b6434bacd764774b84f38512bf6730d2a0f6b0f624
///     1eabfffeb153ffffb9feffffffffaaab.
pub open spec fn n_val() -> int {
    0xb9fe_ffff_ffff_aaab + p64() * (0x1eab_fffe_b153_ffff + p64() * (0x6730_d2a0_f6b0_f624 + p64()
        * (0x6477_4b84_f385_12bf + p64() * (0x4b1b_a7b6_434b_acd7 + p64()
        * 0x1a01_11ea_397f_e69a))))
}

/// The Montgomery radix R = 2^384.
pub open spec fn r_val() -> int {
    p64() * (p64() * (p64() * (p64() * (p64() * p64()))))
}

/// R^{-1} mod N: the unique integer in [0, N) with (R * rinv_val()) % N == 1.
pub open spec fn rinv_val() -> int {
    0xf4d3_8259_380b_4820 + p64() * (0x7fe1_1274_d898_fafb + p64() * (0x343e_a979_1495_6dc8 + p64()
        * (0x1797_ab14_58a8_8de9 + p64() * (0xed5e_6427_3c4f_538b + p64()
        * 0x14fe_c701_e8fb_0ce9))))
}

/// The integer denoted by the limb window s[lo..hi], least-significant
/// limb first: sum of s[i] * 2^(64*(i - lo)) over lo <= i < hi.
pub open spec fn limbs_val(s: Seq<u64>, lo: int, hi: int) -> int
    decreases hi - lo,
{
    if hi <= lo {
        0
    } else {
        s[lo] + p64() * limbs_val(s, lo + 1, hi)
    }
}

/// The integer denoted by a six-limb array.
pub open spec fn w6val(w: [u64; 6]) -> int {
    limbs_val(w@, 0, 6)
}

/// pow64 is at least 1.
pub proof fn lemma_pow64_pos(k: nat)
    ensures
        pow64(k) >= 1,
    decreases k,
{
    if k > 0 {
        lemma_pow64_pos((k - 1) as nat);
    }
}

/// 2^(64*(a+b)) == 2^(64*a) * 2^(64*b).
pub proof fn lemma_pow64_adds(a: nat, b: nat)
    ensures
        pow64(a + b) == pow64(a) * pow64(b),
    decreases a,
{
    if a == 0 {
    } else {
        lemma_pow64_adds((a - 1) as nat, b);
        assert(pow64(a + b) == p64() * pow64((a + b - 1) as nat));
        assert(p64() * (pow64((a - 1) as nat) * pow64(b)) == (p64() * pow64((a - 1) as nat))
            * pow64(b)) by (nonlinear_arith);
    }
}

/// R == 2^(64*6).
pub proof fn lemma_pow64_6_is_r()
    ensures
        pow64(6) == r_val(),
{
    reveal_with_fuel(pow64, 8);
}

/// A limb window denotes a non-negative integer.
pub proof fn lemma_limbs_val_nonneg(s: Seq<u64>, lo: int, hi: int)
    ensures
        limbs_val(s, lo, hi) >= 0,
    decreases hi - lo,
{
    if hi > lo {
        lemma_limbs_val_nonneg(s, lo + 1, hi);
        lemma_mul_nonnegative(p64(), limbs_val(s, lo + 1, hi));
    }
}

/// A window of k limbs denotes less than 2^(64*k).
pub proof fn lemma_limbs_val_bound(s: Seq<u64>, lo: int, hi: int)
    requires
        lo <= hi,
    ensures
        limbs_val(s, lo, hi) < pow64((hi - lo) as nat),
    decreases hi - lo,
{
    if hi <= lo {
    } else {
        lemma_limbs_val_bound(s, lo + 1, hi);
        let rest = limbs_val(s, lo + 1, hi);
        let k = (hi - lo - 1) as nat;
        assert(rest + 1 <= pow64(k));
        lemma_mul_inequality(rest + 1, pow64(k), p64());
        assert((rest + 1) * p64() == rest * p64() + p64()) by (nonlinear_arith);
        lemma_mul_is_commutative(p64(), rest);
        lemma_mul_is_commutative(p64(), pow64(k));
    }
}

/// Two sequences that agree on the window denote the same integer.
pub proof fn lemma_limbs_val_agree(s: Seq<u64>, t: Seq<u64>, lo: int, hi: int)
    requires
        forall|i: int| lo <= i < hi ==> #[trigger] s[i] == t[i],
    ensures
        limbs_val(s, lo, hi) == limbs_val(t, lo, hi),
    decreases hi - lo,
{
    if hi > lo {
        assert(s[lo] == t[lo]);
        lemma_limbs_val_agree(s, t, lo + 1, hi);
    }
}

/// Splitting a window at mid: value == low part + 2^(64*(mid-lo)) * high part.
pub proof fn lemma_limbs_val_split(s: Seq<u64>, lo: int, mid: int, hi: int)
    requires
        lo <= mid <= hi,
    ensures
        limbs_val(s, lo, hi) == limbs_val(s, lo, mid) + pow64((mid - lo) as nat) * limbs_val(
            s,
            mid,
            hi,
        ),
    decreases mid - lo,
{
    if mid <= lo {
        assert(pow64(0) * limbs_val(s, lo, hi) == limbs_val(s, lo, hi)) by (nonlinear_arith);
    } else {
        lemma_limbs_val_split(s, lo + 1, mid, hi);
        let k = (mid - lo - 1) as nat;
        let h = limbs_val(s, mid, hi);
        let l1 = limbs_val(s, lo + 1, mid);
        assert(limbs_val(s, lo, hi) == s[lo] + p64() * (l1 + pow64(k) * h));
        assert(p64() * (l1 + pow64(k) * h) == p64() * l1 + p64() * (pow64(k) * h)) by {
            lemma_mul_is_distributive_add(p64(), l1, pow64(k) * h);
        }
        assert(p64() * (pow64(k) * h) == (p64() * pow64(k)) * h) by (nonlinear_arith);
        assert(pow64((mid - lo) as nat) == p64() * pow64(k));
    }
}

/// Updating a limb inside the window shifts the value by the weighted
/// difference; updating outside leaves it unchanged.
pub proof fn lemma_limbs_val_update(s: Seq<u64>, lo: int, hi: int, j: int, x: u64)
    requires
        0 <= j < s.len(),
        0 <= lo,
        hi <= s.len(),
    ensures
        lo <= j < hi ==> limbs_val(s.update(j, x), lo, hi) == limbs_val(s, lo, hi) + pow64(
            (j - lo) as nat,
        ) * (x - s[j]),
        !(lo <= j < hi) ==> limbs_val(s.update(j, x), lo, hi) == limbs_val(s, lo, hi),
    decreases hi - lo,
{
    let t = s.update(j, x);
    if hi <= lo {
    } else {
        lemma_limbs_val_update(s, lo + 1, hi, j, x);
        if j == lo {
            assert(t[lo] == x);
            assert(limbs_val(t, lo + 1, hi) == limbs_val(s, lo + 1, hi));
            assert(pow64(0) * (x - s[j]) == x - s[j]) by (nonlinear_arith);
        } else if lo < j < hi {
            assert(t[lo] == s[lo]);
            let k = (j - lo - 1) as nat;
            assert(limbs_val(t, lo + 1, hi) == limbs_val(s, lo + 1, hi) + pow64(k) * (x - s[j]));
            assert(p64() * (limbs_val(s, lo + 1, hi) + pow64(k) * (x - s[j])) == p64() * limbs_val(
                s,
                lo + 1,
                hi,
            ) + p64() * (pow64(k) * (x - s[j]))) by {
                lemma_mul_is_distributive_add(p64(), limbs_val(s, lo + 1, hi), pow64(k) * (x
                    - s[j]));
            }
            assert(p64() * (pow64(k) * (x - s[j])) == (p64() * pow64(k)) * (x - s[j]))
                by (nonlinear_arith);
            assert(pow64((j - lo) as nat) == p64() * pow64(k));
        } else {
            assert(t[lo] == s[lo]);
        }
    }
}

/// A window of zero limbs denotes zero.
pub proof fn lemma_limbs_val_zero(s: Seq<u64>, lo: int, hi: int)
    requires
        forall|i: int| lo <= i < hi ==> #[trigger] s[i] == 0u64,
    ensures
        limbs_val(s, lo, hi) == 0,
    decreases hi - lo,
{
    if hi > lo {
        assert(s[lo] == 0u64);
        lemma_limbs_val_zero(s, lo + 1, hi);
    }
}

/// Extending a window by one limb at the top adds that limb's weighted value.
pub proof fn lemma_limbs_val_snoc(s: Seq<u64>, lo: int, hi: int)
    requires
        lo <= hi,
    ensures
        limbs_val(s, lo, hi + 1) == limbs_val(s, lo, hi) + s[hi] * pow64((hi - lo) as nat),
{
    lemma_limbs_val_split(s, lo, hi, hi + 1);
    assert(limbs_val(s, hi, hi + 1) == s[hi] + p64() * limbs_val(s, hi + 1, hi + 1));
    assert(p64() * 0 == 0) by (nonlinear_arith);
    lemma_mul_is_commutative(pow64((hi - lo) as nat), s[hi] as int);
}

/// One step of a carry chain, scaled to limb position k: if a word plus a
/// carry-out denotes x + y + carry-in, the same holds of the weighted values.
pub proof fn lemma_carry_step(s: int, cout: int, x: int, y: int, cin: int, k: nat)
    requires
        s + cout * p64() == x + y + cin,
    ensures
        s * pow64(k) + cout * pow64(k + 1) == x * pow64(k) + y * pow64(k) + cin * pow64(k),
{
    assert(pow64(k + 1) == p64() * pow64(k));
    assert(s * pow64(k) + cout * (p64() * pow64(k)) == x * pow64(k) + y * pow64(k) + cin * pow64(
        k,
    )) by (nonlinear_arith)
        requires
            s + cout * p64() == x + y + cin,
    ;
}

/// One step of a borrow chain, scaled to limb position k.
pub proof fn lemma_borrow_step(s: int, bout: int, x: int, y: int, bin: int, k: nat)
    ensures
        s - bout * p64() == x - y - bin ==> s * pow64(k) - bout * pow64(k + 1) == x * pow64(k) - y
            * pow64(k) - bin * pow64(k),
{
    assert(pow64(k + 1) == p64() * pow64(k));
    if s - bout * p64() == x - y - bin {
        assert(s * pow64(k) - bout * (p64() * pow64(k)) == x * pow64(k) - y * pow64(k) - bin
            * pow64(k)) by (nonlinear_arith)
            requires
                s - bout * p64() == x - y - bin,
        ;
    }
}

/// Windows whose limbs agree up to an index shift denote the same integer.
pub proof fn lemma_limbs_val_shift(s: Seq<u64>, t: Seq<u64>, lo: int, hi: int, d: int)
    requires
        forall|i: int| lo <= i < hi ==> #[trigger] s[i] == t[i + d],
    ensures
        limbs_val(s, lo, hi) == limbs_val(t, lo + d, hi + d),
    decreases hi - lo,
{
    if hi > lo {
        assert(s[lo] == t[lo + d]);
        lemma_limbs_val_shift(s, t, lo + 1, hi, d);
    }
}

/// One multiply-accumulate step of CIOS, at window offset i + j: folding
/// the low word into the accumulator and carrying the high word keeps the
/// running identity `accumulator == start + (low limbs of a) * bi * 2^(64i)`.
pub proof fn lemma_macc_step(
    t_old: int,
    lo: int,
    hi: int,
    aj: int,
    bi: int,
    cin: int,
    vold: int,
    vnew: int,
    alow: int,
    t0: int,
    i: nat,
    j: nat,
)
    requires
        lo + p64() * hi == aj * bi + t_old + cin,
        vnew == vold + pow64((i + j) as nat) * (lo - t_old),
        vold + cin * pow64((i + j) as nat) == t0 + (alow * bi) * pow64(i),
    ensures
        vnew + hi * pow64((i + j + 1) as nat) == t0 + ((alow + aj * pow64(j)) * bi) * pow64(i),
{
    lemma_pow64_adds(i, j);
    let p = p64();
    let pwi = pow64(i);
    let pwj = pow64(j);
    let pwij = pow64((i + j) as nat);
    assert(pow64((i + j + 1) as nat) == p * pwij);
    lemma_mul_is_commutative(pwij, lo - t_old);
    assert((lo - t_old) * pwij + (hi * p) * pwij == (aj * bi + cin) * pwij) by (nonlinear_arith)
        requires
            lo + p * hi == aj * bi + t_old + cin,
    ;
    assert((aj * bi + cin) * pwij == (aj * bi) * pwij + cin * pwij) by (nonlinear_arith);
    assert(hi * (p * pwij) == (hi * p) * pwij) by (nonlinear_arith);
    assert(((alow + aj * pwj) * bi) * pwi == (alow * bi) * pwi + (aj * bi) * (pwi * pwj))
        by (nonlinear_arith);
}

/// The CIOS quotient digit m == (t * N') % 2^64 makes the low limb vanish:
/// (m * N[0] + t) is divisible by 2^64, because N[0] * N' == -1 mod 2^64.
pub proof fn lemma_m_cancels(t: int, m: int)
    requires
        0 <= t < p64(),
        m == (t * 0x89f3_fffc_fffc_fffd) % p64(),
    ensures
        (m * 0xb9fe_ffff_ffff_aaab + t) % p64() == 0,
{
    let p = p64();
    let np = 0x89f3_fffc_fffc_fffd as int;
    let n0 = 0xb9fe_ffff_ffff_aaab as int;
    lemma_mul_mod_noop_left(t * np, n0, p);
    assert((t * np) * n0 == t * (np * n0)) by (nonlinear_arith);
    lemma_mul_mod_noop_right(t, np * n0, p);
    assert((m * n0) % p == (t * ((np * n0) % p)) % p);
    assert((np * n0) % p == p - 1);
    vstd::arithmetic::div_mod::lemma_add_mod_noop(m * n0, t, p);
    vstd::arithmetic::div_mod::lemma_add_mod_noop(t * (p - 1), t, p);
    lemma_small_mod(t as nat, p as nat);
    assert(t * (p - 1) + t == t * p) by (nonlinear_arith);
    vstd::arithmetic::div_mod::lemma_mod_multiples_basic(t, p);
}

/// Regrouping the value of one finished CIOS round: accumulating a*bi and
/// m*N at offset i extends the partial product by one limb of b and the
/// quotient by one digit m.
pub proof fn lemma_round_total(av: int, bvi: int, bi: int, q: int, m: int, i: nat)
    ensures
        (av * bvi + q * n_val()) + (av * bi) * pow64(i) + (n_val() * m) * pow64(i) == av * (bvi + bi
            * pow64(i)) + (q + m * pow64(i)) * n_val(),
{
    let nv = n_val();
    let pw = pow64(i);
    assert((av * bvi + q * nv) + (av * bi) * pw + (nv * m) * pw == av * (bvi + bi * pw) + (q + m
        * pw) * nv) by (nonlinear_arith);
}

/// A six-limb value written out with explicit limb weights.
pub proof fn lemma_w6_weighted(w: [u64; 6])
    ensures
        w6val(w) == w@[0] + w@[1] * pow64(1) + w@[2] * pow64(2) + w@[3] * pow64(3) + w@[4] * pow64(
            4,
        ) + w@[5] * pow64(5),
{
    reveal_with_fuel(limbs_val, 8);
    let p = p64();
    assert(pow64(0) == 1);
    assert(pow64(1) == p * pow64(0));
    assert(pow64(2) == p * pow64(1));
    assert(pow64(3) == p * pow64(2));
    assert(pow64(4) == p * pow64(3));
    assert(pow64(5) == p * pow64(4));
    assert(w@[0] + p * (w@[1] + p * (w@[2] + p * (w@[3] + p * (w@[4] + p * w@[5])))) == w@[0]
        + w@[1] * pow64(1) + w@[2] * pow64(2) + w@[3] * pow64(3) + w@[4] * pow64(4) + w@[5]
        * pow64(5)) by (nonlinear_arith)
        requires
            pow64(1) == p * 1,
            pow64(2) == p * pow64(1),
            pow64(3) == p * pow64(2),
            pow64(4) == p * pow64(3),
            pow64(5) == p * pow64(4),
    ;
}

/// A seven-limb window written out with explicit limb weights.
pub proof fn lemma_w7_weighted(s: Seq<u64>)
    ensures
        limbs_val(s, 0, 7) == s[0] + s[1] * pow64(1) + s[2] * pow64(2) + s[3] * pow64(3) + s[4]
            * pow64(4) + s[5] * pow64(5) + s[6] * pow64(6),
{
    reveal_with_fuel(limbs_val, 9);
    let p = p64();
    assert(pow64(0) == 1);
    assert(pow64(1) == p * pow64(0));
    assert(pow64(2) == p * pow64(1));
    assert(pow64(3) == p * pow64(2));
    assert(pow64(4) == p * pow64(3));
    assert(pow64(5) == p * pow64(4));
    assert(pow64(6) == p * pow64(5));
    assert(s[0] + p * (s[1] + p * (s[2] + p * (s[3] + p * (s[4] + p * (s[5] + p * s[6]))))) == s[0]
        + s[1] * pow64(1) + s[2] * pow64(2) + s[3] * pow64(3) + s[4] * pow64(4) + s[5] * pow64(5)
        + s[6] * pow64(6)) by (nonlinear_arith)
        requires
            pow64(1) == p * 1,
            pow64(2) == p * pow64(1),
            pow64(3) == p * pow64(2),
            pow64(4) == p * pow64(3),
            pow64(5) == p * pow64(4),
            pow64(6) == p * pow64(5),
    ;
}

/// A six-limb value times a scalar, written out limb by limb.
pub proof fn lemma_w6_scalar_product(w: [u64; 6], c: int)
    ensures
        w6val(w) * c == w@[0] * c + (w@[1] * c) * pow64(1) + (w@[2] * c) * pow64(2) + (w@[3] * c)
            * pow64(3) + (w@[4] * c) * pow64(4) + (w@[5] * c) * pow64(5),
{
    lemma_w6_weighted(w);
    assert((w@[0] + w@[1] * pow64(1) + w@[2] * pow64(2) + w@[3] * pow64(3) + w@[4] * pow64(4)
        + w@[5] * pow64(5)) * c == w@[0] * c + (w@[1] * c) * pow64(1) + (w@[2] * c) * pow64(2) + (
    w@[3] * c) * pow64(3) + (w@[4] * c) * pow64(4) + (w@[5] * c) * pow64(5)) by (nonlinear_arith);
}

/// Shifting a six-limb value up by one limb multiplies it by 2^64.
pub proof fn lemma_w6_shift_up(w: [u64; 6])
    ensures
        w@[0] * pow64(1) + w@[1] * pow64(2) + w@[2] * pow64(3) + w@[3] * pow64(4) + w@[4] * pow64(
            5,
        ) + w@[5] * pow64(6) == w6val(w) * p64(),
{
    lemma_w6_weighted(w);
    let p = p64();
    assert(pow64(1) == p * pow64(0));
    assert(pow64(0) == 1);
    assert(pow64(2) == p * pow64(1));
    assert(pow64(3) == p * pow64(2));
    assert(pow64(4) == p * pow64(3));
    assert(pow64(5) == p * pow64(4));
    assert(pow64(6) == p * pow64(5));
    assert(w@[0] * pow64(1) + w@[1] * pow64(2) + w@[2] * pow64(3) + w@[3] * pow64(4) + w@[4]
        * pow64(5) + w@[5] * pow64(6) == (w@[0] + w@[1] * pow64(1) + w@[2] * pow64(2) + w@[3]
        * pow64(3) + w@[4] * pow64(4) + w@[5] * pow64(5)) * p) by (nonlinear_arith)
        requires
            pow64(1) == p * 1,
            pow64(2) == p * pow64(1),
            pow64(3) == p * pow64(2),
            pow64(4) == p * pow64(3),
            pow64(5) == p * pow64(4),
            pow64(6) == p * pow64(5),
    ;
}

/// The top limb of a reduced value, or of a value below 2N, is small: N's
/// top limb is 0x1a01_11ea_397f_e69a, so anything below 2N has top limb
/// below 0x3402_23d4_72ff_cd37.
pub proof fn lemma_top_limb_small(w: [u64; 6])
    requires
        w6val(w) < 2 * n_val(),
    ensures
        w@[5] < 0x3402_23d4_72ff_cd36,
{
    let p = p64();
    let pw5 = pow64(5);
    lemma_pow64_pos(5);
    lemma_limb_le_val(w@, 0, 6, 5);
    reveal_with_fuel(pow64, 8);
    assert(2 * n_val() <= 0x3402_23d4_72ff_cd36 * pw5) by (nonlinear_arith)
        requires
            p == 0x1_0000_0000_0000_0000,
            pw5 == p * (p * (p * (p * (p * 1)))),
            n_val() == 0xb9fe_ffff_ffff_aaab + p * (0x1eab_fffe_b153_ffff + p * (
            0x6730_d2a0_f6b0_f624 + p * (0x6477_4b84_f385_12bf + p * (0x4b1b_a7b6_434b_acd7 + p
                * 0x1a01_11ea_397f_e69a)))),
    ;
    assert(w@[5] * pw5 < 0x3402_23d4_72ff_cd36 * pw5);
    vstd::arithmetic::mul::lemma_mul_strict_inequality_converse(
        w@[5] as int,
        0x3402_23d4_72ff_cd36,
        pw5,
    );
}

/// The high word of a 64x64 product is bounded by the first factor's bound.
pub proof fn lemma_hi_digit_small(lo: int, hi: int, x: int, y: int, k: int)
    requires
        lo + p64() * hi == x * y,
        0 <= lo,
        0 <= hi,
        0 <= x < k,
        0 <= y < p64(),
    ensures
        hi < k,
{
    assert(hi < k) by (nonlinear_arith)
        requires
            lo + p64() * hi == x * y,
            0 <= lo,
            0 <= hi,
            0 <= x < k,
            0 <= y < p64(),
            0 < p64(),
    ;
}

/// The accumulator value after a round stays below 2^(64*(6+k)): the
/// partial product and quotient each have k limbs, and 2N fits in six.
pub proof fn lemma_total_bound(av: int, bv1: int, q1: int, k: nat)
    requires
        0 <= av < n_val(),
        0 <= bv1 < pow64(k),
        0 <= q1 < pow64(k),
    ensures
        av * bv1 + q1 * n_val() < pow64(6 + k),
{
    lemma_pow64_adds(6, k);
    lemma_pow64_6_is_r();
    lemma_pow64_pos(k);
    assert(av * bv1 + q1 * n_val() < (2 * n_val()) * pow64(k)) by (nonlinear_arith)
        requires
            0 <= av < n_val(),
            0 <= bv1 < pow64(k),
            0 <= q1 < pow64(k),
            0 < n_val(),
            0 < pow64(k),
    ;
    lemma_mul_inequality(2 * n_val(), pow64(6), pow64(k));
}

/// If the accumulator value plus a pending carry at limb k stays below
/// 2^(64*(k+1)), then folding the carry into limb k cannot overflow it.
pub proof fn lemma_high_limb_bound(s: Seq<u64>, k: int, c: int, total: int)
    requires
        0 <= k < 12,
        0 <= c,
        total == limbs_val(s, 0, 12) + c * pow64(k as nat),
        total < pow64((k + 1) as nat),
    ensures
        s[k] + c < p64(),
{
    let pw = pow64(k as nat);
    lemma_pow64_pos(k as nat);
    lemma_limbs_val_split(s, 0, k, 12);
    lemma_limbs_val_nonneg(s, 0, k);
    lemma_limb_le_val(s, k, 12, k);
    assert(pow64(0) == 1);
    assert(s[k] * 1 == s[k]) by (nonlinear_arith);
    let rest = limbs_val(s, k, 12);
    assert(s[k] <= rest);
    lemma_mul_inequality(s[k] as int, rest, pw);
    lemma_mul_is_commutative(s[k] as int, pw);
    lemma_mul_is_commutative(rest, pw);
    assert(limbs_val(s, 0, 12) >= pw * rest);
    assert((s[k] + c) * pw == s[k] * pw + c * pw) by (nonlinear_arith);
    assert((s[k] + c) * pw <= total);
    assert(pow64((k + 1) as nat) == p64() * pw);
    lemma_pow64_pos(k as nat);
    assert((s[k] + c) * pw < p64() * pw);
    lemma_mul_is_commutative(p64(), pw);
    vstd::arithmetic::mul::lemma_mul_strict_inequality_converse(s[k] + c, p64(), pw);
}

/// A value below N whose product with R is congruent to x mod N is exactly
/// (x * R^{-1}) mod N: the Montgomery reduction of x.
pub proof fn lemma_mont_result(ov: int, x: int)
    requires
        0 <= ov < n_val(),
        (ov * r_val()) % n_val() == x % n_val(),
    ensures
        ov == (x * rinv_val()) % n_val(),
{
    let n = n_val();
    let r = r_val();
    let ri = rinv_val();
    lemma_r_rinv();
    let y = (x * ri) % n;
    vstd::arithmetic::div_mod::lemma_mod_bound(x * ri, n);
    // (y * r) % n == (x * (ri * r)) % n == (x * 1) % n == x % n
    lemma_mul_mod_noop_left(x * ri, r, n);
    assert((x * ri) * r == x * (ri * r)) by (nonlinear_arith);
    lemma_mul_mod_noop_right(x, ri * r, n);
    assert((ri * r) % n == 1) by {
        lemma_mul_is_commutative(ri, r);
    }
    assert(x * ((ri * r) % n) == x) by (nonlinear_arith)
        requires
            (ri * r) % n == 1,
    ;
    assert((y * r) % n == x % n);
    lemma_r_cancel(ov, y);
}

/// A single limb is bounded by the value of any window containing it.
pub proof fn lemma_limb_le_val(s: Seq<u64>, lo: int, hi: int, j: int)
    requires
        lo <= j < hi,
    ensures
        s[j] * pow64((j - lo) as nat) <= limbs_val(s, lo, hi),
    decreases j - lo,
{
    if j == lo {
        lemma_limbs_val_nonneg(s, lo + 1, hi);
        lemma_mul_nonnegative(p64(), limbs_val(s, lo + 1, hi));
        assert(s[j] * pow64(0) == s[j]) by (nonlinear_arith);
    } else {
        lemma_limb_le_val(s, lo + 1, hi, j);
        let k = (j - lo - 1) as nat;
        assert(s[j] * pow64(k) <= limbs_val(s, lo + 1, hi));
        lemma_mul_inequality(s[j] * pow64(k), limbs_val(s, lo + 1, hi), p64());
        lemma_mul_is_commutative(s[j] * pow64(k), p64());
        lemma_mul_is_commutative(limbs_val(s, lo + 1, hi), p64());
        assert(p64() * (s[j] * pow64(k)) == s[j] * (p64() * pow64(k))) by (nonlinear_arith);
        assert(pow64((j - lo) as nat) == p64() * pow64(k));
    }
}

/// The value of a limb window determines every limb in it.
pub proof fn lemma_limbs_val_injective(s: Seq<u64>, t: Seq<u64>, lo: int, hi: int)
    requires
        limbs_val(s, lo, hi) == limbs_val(t, lo, hi),
    ensures
        forall|i: int| lo <= i < hi ==> s[i] == t[i],
    decreases hi - lo,
{
    if hi > lo {
        let rs = limbs_val(s, lo + 1, hi);
        let rt = limbs_val(t, lo + 1, hi);
        lemma_limbs_val_nonneg(s, lo + 1, hi);
        lemma_limbs_val_nonneg(t, lo + 1, hi);
        lemma_fundamental_div_mod_converse(limbs_val(s, lo, hi), p64(), rs, s[lo] as int);
        lemma_fundamental_div_mod_converse(limbs_val(t, lo, hi), p64(), rt, t[lo] as int);
        assert(s[lo] == t[lo]);
        assert(rs == rt);
        lemma_limbs_val_injective(s, t, lo + 1, hi);
        assert forall|i: int| lo <= i < hi implies s[i] == t[i] by {
            if i > lo {
                assert(s[i] == t[i]);
            }
        }
    }
}

/// (R^2) mod N, the constant that converts into Montgomery form.
pub open spec fn r2_val() -> int {
    0xf4df_1f34_1c34_1746 + p64() * (0x0a76_e6a6_09d1_04f1 + p64() * (0x8de5_476c_4c95_b6d5 + p64()
        * (0x67eb_88a9_939d_83c0 + p64() * (0x9a79_3e85_b519_952d + p64()
        * 0x1198_8fe5_92ca_e3aa))))
}

/// Core fact behind every Montgomery contract: (R * R^{-1}) % N == 1.
#[verifier::rlimit(100)]
pub proof fn lemma_r_rinv()
    ensures
        (r_val() * rinv_val()) % n_val() == 1,
        0 < n_val() < r_val(),
        0 <= rinv_val() < n_val(),
{
    let p = p64();
    let r = r_val();
    let ri = rinv_val();
    let n = n_val();
    // The exact quotient of R * R^{-1} by N.
    let q = 0x89f3_fffc_fffc_fffd + p * (0x286a_db92_d9d1_13e8 + p * (0x16ef_2ef0_c8e3_0b48 + p
        * (0x19ec_ca0e_8eb2_db4c + p * (0x68b3_16fe_e268_cf58 + p * 0xceb0_6106_feaa_fc94))));
    assert(r * ri == q * n + 1) by (nonlinear_arith)
        requires
            p == 0x1_0000_0000_0000_0000,
            r == p * (p * (p * (p * (p * p)))),
            ri == 0xf4d3_8259_380b_4820 + p * (0x7fe1_1274_d898_fafb + p * (0x343e_a979_1495_6dc8
                + p * (0x1797_ab14_58a8_8de9 + p * (0xed5e_6427_3c4f_538b + p
                * 0x14fe_c701_e8fb_0ce9)))),
            n == 0xb9fe_ffff_ffff_aaab + p * (0x1eab_fffe_b153_ffff + p * (0x6730_d2a0_f6b0_f624
                + p * (0x6477_4b84_f385_12bf + p * (0x4b1b_a7b6_434b_acd7 + p
                * 0x1a01_11ea_397f_e69a)))),
            q == 0x89f3_fffc_fffc_fffd + p * (0x286a_db92_d9d1_13e8 + p * (0x16ef_2ef0_c8e3_0b48
                + p * (0x19ec_ca0e_8eb2_db4c + p * (0x68b3_16fe_e268_cf58 + p
                * 0xceb0_6106_feaa_fc94)))),
    ;
    vstd::arithmetic::div_mod::lemma_fundamental_div_mod_converse_mod(r * ri, n, q, 1);
}

/// R^2 mod N is what the constant `r2_val` says it is.
#[verifier::rlimit(100)]
pub proof fn lemma_r2_mod()
    ensures
        r2_val() == (r_val() * r_val()) % n_val(),
        0 <= r2_val() < n_val(),
{
    let p = p64();
    let r = r_val();
    let n = n_val();
    let r2 = r2_val();
    // The exact quotient of R * R by N.
    let q = 0x13e2_07f5_6591_ba2e + p * (0x9971_67a0_58f1_c07b + p * (0xdf47_71e0_2867_79d3 + p
        * (0x1b82_741f_f6a0_a94b + p * (0x2810_1b0c_c7a6_ba29 + p * (0xd835_d2f3_cc9e_45ce + p
        * 0x9)))));
    assert(r * r == q * n + r2) by (nonlinear_arith)
        requires
            p == 0x1_0000_0000_0000_0000,
            r == p * (p * (p * (p * (p * p)))),
            r2 == 0xf4df_1f34_1c34_1746 + p * (0x0a76_e6a6_09d1_04f1 + p * (0x8de5_476c_4c95_b6d5
                + p * (0x67eb_88a9_939d_83c0 + p * (0x9a79_3e85_b519_952d + p
                * 0x1198_8fe5_92ca_e3aa)))),
            n == 0xb9fe_ffff_ffff_aaab + p * (0x1eab_fffe_b153_ffff + p * (0x6730_d2a0_f6b0_f624
                + p * (0x6477_4b84_f385_12bf + p * (0x4b1b_a7b6_434b_acd7 + p
                * 0x1a01_11ea_397f_e69a)))),
            q == 0x13e2_07f5_6591_ba2e + p * (0x9971_67a0_58f1_c07b + p * (0xdf47_71e0_2867_79d3
                + p * (0x1b82_741f_f6a0_a94b + p * (0x2810_1b0c_c7a6_ba29 + p
                * (0xd835_d2f3_cc9e_45ce + p * 0x9))))),
    ;
    vstd::arithmetic::div_mod::lemma_fundamental_div_mod_converse_mod(r * r, n, q, r2);
}

/// Multiplication by R is injective on [0, N): a value below N is pinned
/// down by its residue times R.  This is what makes the Montgomery
/// contracts exact, and why all multiplication tiers must agree.
pub proof fn lemma_r_cancel(x: int, y: int)
    requires
        0 <= x < n_val(),
        0 <= y < n_val(),
        (x * r_val()) % n_val() == (y * r_val()) % n_val(),
    ensures
        x == y,
{
    let n = n_val();
    let r = r_val();
    let ri = rinv_val();
    lemma_r_rinv();
    // x == (x * (r * ri)) % n, and likewise for y.
    lemma_mul_mod_noop_left(x * r, ri, n);
    lemma_mul_mod_noop_left(y * r, ri, n);
    assert((x * r) * ri == x * (r * ri)) by (nonlinear_arith);
    assert((y * r) * ri == y * (r * ri)) by (nonlinear_arith);
    lemma_mul_mod_noop_right(x, r * ri, n);
    lemma_mul_mod_noop_right(y, r * ri, n);
    assert(x * ((r * ri) % n) == x) by (nonlinear_arith)
        requires
            (r * ri) % n == 1,
    ;
    assert(y * ((r * ri) % n) == y) by (nonlinear_arith)
        requires
            (r * ri) % n == 1,
    ;
    lemma_small_mod(x as nat, n as nat);
    lemma_small_mod(y as nat, n as nat);
}

/// Reducing a value in [0, 2N) by one conditional subtraction.
pub proof fn lemma_reduce_once(t: int)
    requires
        0 <= t < 2 * n_val(),
    ensures
        t % n_val() == if t < n_val() {
            t
        } else {
            t - n_val()
        },
{
    let n = n_val();
    if t < n {
        lemma_small_mod(t as nat, n as nat);
    } else {
        lemma_mod_multiples_vanish(-1, t, n);
        lemma_small_mod((t - n) as nat, n as nat);
    }
}

/// Congruence mod n is preserved by multiplying both sides by the same factor.
pub proof fn lemma_mod_mul_both(x: int, y: int, c: int, n: int)
    requires
        0 < n,
        x % n == y % n,
    ensures
        (x * c) % n == (y * c) % n,
{
    lemma_mul_mod_noop_left(x, c, n);
    lemma_mul_mod_noop_left(y, c, n);
}

} // verus!
