//! Fixed-modulus Montgomery arithmetic over the BLS12-381 base field prime,
//! on six 64-bit limbs: modular addition and subtraction, Montgomery
//! multiplication (a loop-based CIOS kernel and an unrolled drop-in
//! replacement for it), and conversion into and out of Montgomery form.
//!
//! Every operation carries a contract over the mathematical value of its
//! limb vectors and is verified against it; the laws module states and
//! proves the round-trip, multiplication-correctness and tier-equivalence
//! properties once and for all.
pub mod arith;
pub mod flat;
pub mod laws;
pub mod model;
pub mod rotate;
