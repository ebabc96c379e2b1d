//! The adapter around the curve library.
//!
//! The scheme works over the BN254 scalar field `Fr`, the two curve
//! groups `G1` and `G2` (held in affine form), and the pairing target
//! group `Gt`, all supplied by `halo2curves`. Each such value is opaque
//! here, so this module gives every one an integer model: a scalar is
//! the canonical residue it stands for, modulo the order of `Fr`, and a
//! group element is the discrete logarithm of the point with respect to
//! the group's fixed generator — well defined because all three groups
//! are cyclic of that same prime order. The wrappers below state, over
//! those models, exactly the arithmetic that the library documents, and
//! everything else in this crate is proved from these contracts.
//!
//! The group models read every point as an element of the prime-order
//! pairing groups. That is how this crate creates each point: from a
//! generator, the identity, or the group operations on such points.
use vstd::arithmetic::div_mod::{
    lemma_add_mod_noop, lemma_add_mod_noop_right, lemma_mod_twice, lemma_mul_mod_noop_general,
    lemma_small_mod, lemma_sub_mod_noop, lemma_sub_mod_noop_right,
};
use vstd::prelude::*;

use halo2curves::bn256::{Fr, G1Affine, G2Affine, Gt};
use halo2curves::ff::Field;
use halo2curves::group::prime::PrimeCurveAffine;
use halo2curves::group::Curve;
use halo2curves::pairing::PairingCurveAffine;

verus! {

#[verifier::external_type_specification]
#[verifier::external_body]
pub struct ExFr(Fr);

#[verifier::external_type_specification]
#[verifier::external_body]
pub struct ExG1Affine(G1Affine);

#[verifier::external_type_specification]
#[verifier::external_body]
pub struct ExG2Affine(G2Affine);

#[verifier::external_type_specification]
#[verifier::external_body]
pub struct ExGt(Gt);

/// The order of the BN254 scalar field, a prime: every scalar is a
/// residue modulo this number, and the three pairing groups are cyclic
/// of this same order.
pub open spec fn fr_order() -> int {
    0x30644e72e131a029b85045b68181585d2833e84879b9709143e1f593f0000001int
}

/// Reduction into the scalar field: the canonical residue of `a`.
pub open spec fn fmod(a: int) -> int {
    a % fr_order()
}

/// The canonical integer a scalar stands for, in `[0, fr_order())`.
pub uninterp spec fn fr_val(x: Fr) -> int;

/// The discrete logarithm of a `G1` point with respect to the fixed
/// `G1` generator, in `[0, fr_order())`.
pub uninterp spec fn g1_val(p: G1Affine) -> int;

/// The discrete logarithm of a `G2` point with respect to the fixed
/// `G2` generator, in `[0, fr_order())`.
pub uninterp spec fn g2_val(p: G2Affine) -> int;

/// The discrete logarithm of a target-group element with respect to
/// the pairing of the two generators, in `[0, fr_order())`.
pub uninterp spec fn gt_val(t: Gt) -> int;

/// Relies on `Fr::ZERO`: the additive identity of the scalar field.
#[verifier::external_body]
pub(crate) fn fr_zero() -> (r: Fr)
    ensures
        fr_val(r) == 0,
{
    Fr::ZERO
}

/// Relies on `Fr::ONE`: the multiplicative identity of the scalar field.
#[verifier::external_body]
pub(crate) fn fr_one() -> (r: Fr)
    ensures
        fr_val(r) == 1,
{
    Fr::ONE
}

/// Relies on `Fr`'s addition: arithmetic modulo the field order.
#[verifier::external_body]
pub(crate) fn fr_add(a: &Fr, b: &Fr) -> (r: Fr)
    ensures
        fr_val(r) == fmod(fr_val(*a) + fr_val(*b)),
{
    *a + *b
}

/// Relies on `Fr`'s subtraction: arithmetic modulo the field order.
#[verifier::external_body]
pub(crate) fn fr_sub(a: &Fr, b: &Fr) -> (r: Fr)
    ensures
        fr_val(r) == fmod(fr_val(*a) - fr_val(*b)),
{
    *a - *b
}

/// Relies on `Fr`'s multiplication: arithmetic modulo the field order.
#[verifier::external_body]
pub(crate) fn fr_mul(a: &Fr, b: &Fr) -> (r: Fr)
    ensures
        fr_val(r) == fmod(fr_val(*a) * fr_val(*b)),
{
    *a * *b
}

/// Relies on `Fr`'s negation: arithmetic modulo the field order.
#[verifier::external_body]
pub(crate) fn fr_neg(a: &Fr) -> (r: Fr)
    ensures
        fr_val(r) == fmod(0 - fr_val(*a)),
{
    -*a
}

/// Relies on `Fr::invert`: the multiplicative inverse, which exists for
/// exactly the nonzero scalars.
#[verifier::external_body]
pub(crate) fn fr_invert(a: &Fr) -> (r: Option<Fr>)
    ensures
        r.is_some() <==> fmod(fr_val(*a)) != 0,
        r matches Some(inv) ==> fmod(fr_val(inv) * fr_val(*a)) == 1 && 0 <= fr_val(inv)
            < fr_order(),
{
    Option::<Fr>::from(a.invert())
}

/// Relies on `Fr`'s equality: scalars are equal exactly when they stand
/// for the same residue.
#[verifier::external_body]
pub(crate) fn fr_eq(a: &Fr, b: &Fr) -> (r: bool)
    ensures
        r <==> fmod(fr_val(*a)) == fmod(fr_val(*b)),
{
    *a == *b
}

/// Relies on `Fr::random`: a scalar drawn from the whole field. Nothing
/// is promised of the draw beyond the canonical range of its model.
#[verifier::external_body]
pub(crate) fn fr_random() -> (r: Fr)
    ensures
        0 <= fr_val(r) < fr_order(),
{
    Fr::random(rand::thread_rng())
}

/// Relies on `G1Affine::generator`: the fixed generator of `G1`.
#[verifier::external_body]
pub(crate) fn g1_generator() -> (r: G1Affine)
    ensures
        g1_val(r) == 1,
{
    G1Affine::generator()
}

/// Relies on `G1Affine::identity`: the group identity of `G1`.
#[verifier::external_body]
pub(crate) fn g1_identity() -> (r: G1Affine)
    ensures
        g1_val(r) == 0,
{
    G1Affine::identity()
}

/// Relies on `G1`'s scalar multiplication: multiplying a point by a
/// scalar multiplies its discrete logarithm, modulo the group order.
#[verifier::external_body]
pub(crate) fn g1_scale(p: &G1Affine, k: &Fr) -> (r: G1Affine)
    ensures
        g1_val(r) == fmod(g1_val(*p) * fr_val(*k)),
{
    (*p * *k).to_affine()
}

/// Relies on `G1`'s point addition: adding points adds their discrete
/// logarithms, modulo the group order.
#[verifier::external_body]
pub(crate) fn g1_add(a: &G1Affine, b: &G1Affine) -> (r: G1Affine)
    ensures
        g1_val(r) == fmod(g1_val(*a) + g1_val(*b)),
{
    (*a + *b).to_affine()
}

/// Relies on `G1`'s point subtraction: subtracting points subtracts
/// their discrete logarithms, modulo the group order.
#[verifier::external_body]
pub(crate) fn g1_sub(a: &G1Affine, b: &G1Affine) -> (r: G1Affine)
    ensures
        g1_val(r) == fmod(g1_val(*a) - g1_val(*b)),
{
    (*a - *b).to_affine()
}

/// Relies on `G2Affine::generator`: the fixed generator of `G2`.
#[verifier::external_body]
pub(crate) fn g2_generator() -> (r: G2Affine)
    ensures
        g2_val(r) == 1,
{
    G2Affine::generator()
}

/// Relies on `G2Affine::identity`: the group identity of `G2`.
#[verifier::external_body]
pub(crate) fn g2_identity() -> (r: G2Affine)
    ensures
        g2_val(r) == 0,
{
    G2Affine::identity()
}

/// Relies on `G2`'s scalar multiplication: multiplying a point by a
/// scalar multiplies its discrete logarithm, modulo the group order.
#[verifier::external_body]
pub(crate) fn g2_scale(p: &G2Affine, k: &Fr) -> (r: G2Affine)
    ensures
        g2_val(r) == fmod(g2_val(*p) * fr_val(*k)),
{
    (*p * *k).to_affine()
}

/// Relies on `G2`'s point addition: adding points adds their discrete
/// logarithms, modulo the group order.
#[verifier::external_body]
pub(crate) fn g2_add(a: &G2Affine, b: &G2Affine) -> (r: G2Affine)
    ensures
        g2_val(r) == fmod(g2_val(*a) + g2_val(*b)),
{
    (*a + *b).to_affine()
}

/// Relies on `G2`'s point subtraction: subtracting points subtracts
/// their discrete logarithms, modulo the group order.
#[verifier::external_body]
pub(crate) fn g2_sub(a: &G2Affine, b: &G2Affine) -> (r: G2Affine)
    ensures
        g2_val(r) == fmod(g2_val(*a) - g2_val(*b)),
{
    (*a - *b).to_affine()
}

/// Relies on `pairing_with` for `G1Affine`, the bilinear BN254 pairing:
/// `e(aP, bQ) == e(P, Q)^(a*b)` for the fixed generators `P`, `Q`, so
/// the discrete logarithm of the output is the product of the inputs'.
#[verifier::external_body]
pub(crate) fn pairing(a: &G1Affine, b: &G2Affine) -> (r: Gt)
    ensures
        gt_val(r) == fmod(g1_val(*a) * g2_val(*b)),
{
    a.pairing_with(b)
}

/// Relies on `Gt`'s equality: target-group elements are equal exactly
/// when their discrete logarithms agree, the pairing being
/// non-degenerate.
#[verifier::external_body]
pub(crate) fn gt_eq(a: &Gt, b: &Gt) -> (r: bool)
    ensures
        r <==> fmod(gt_val(*a)) == fmod(gt_val(*b)),
{
    *a == *b
}

/// Reduction is idempotent.
pub proof fn lemma_fmod_idem(a: int)
    ensures
        fmod(fmod(a)) == fmod(a),
{
    lemma_mod_twice(a, fr_order());
}

/// A value already in canonical range reduces to itself.
pub proof fn lemma_fmod_small(a: int)
    requires
        0 <= a < fr_order(),
    ensures
        fmod(a) == a,
{
    lemma_small_mod(a as nat, fr_order() as nat);
}

/// Reducing an addend early does not change a reduced sum.
pub proof fn lemma_fmod_add_noop(a: int, b: int)
    ensures
        fmod(fmod(a) + fmod(b)) == fmod(a + b),
        fmod(fmod(a) + b) == fmod(a + b),
        fmod(a + fmod(b)) == fmod(a + b),
{
    lemma_add_mod_noop(a, b, fr_order());
    lemma_add_mod_noop_right(a, b, fr_order());
    lemma_add_mod_noop_right(b, a, fr_order());
    assert(fmod(a) + b == b + fmod(a));
    assert(a + fmod(b) == fmod(b) + a);
    lemma_mod_twice(a, fr_order());
    lemma_mod_twice(b, fr_order());
    lemma_add_mod_noop(fmod(a), b, fr_order());
    lemma_add_mod_noop(a, fmod(b), fr_order());
}

/// Reducing either side early does not change a reduced difference.
pub proof fn lemma_fmod_sub_noop(a: int, b: int)
    ensures
        fmod(fmod(a) - fmod(b)) == fmod(a - b),
        fmod(fmod(a) - b) == fmod(a - b),
        fmod(a - fmod(b)) == fmod(a - b),
{
    lemma_sub_mod_noop(a, b, fr_order());
    lemma_sub_mod_noop_right(a, b, fr_order());
    lemma_mod_twice(a, fr_order());
    lemma_mod_twice(b, fr_order());
    lemma_sub_mod_noop(fmod(a), b, fr_order());
    lemma_sub_mod_noop(a, fmod(b), fr_order());
}

/// A reduced value lies in the canonical range.
pub proof fn lemma_fmod_bound(a: int)
    ensures
        0 <= fmod(a) < fr_order(),
{
    vstd::arithmetic::div_mod::lemma_mod_bound(a, fr_order());
}

/// Congruent summands give congruent sums.
pub proof fn lemma_fmod_add_congruent(u: int, v: int, c: int)
    requires
        fmod(u) == fmod(v),
    ensures
        fmod(u + c) == fmod(v + c),
{
    lemma_fmod_add_noop(u, c);
    lemma_fmod_add_noop(v, c);
}

/// Congruent factors give congruent products.
pub proof fn lemma_fmod_mul_congruent(u: int, v: int, c: int)
    requires
        fmod(u) == fmod(v),
    ensures
        fmod(u * c) == fmod(v * c),
{
    lemma_fmod_mul_noop(u, c);
    lemma_fmod_mul_noop(v, c);
}

/// Reducing a factor early does not change a reduced product.
pub proof fn lemma_fmod_mul_noop(a: int, b: int)
    ensures
        fmod(fmod(a) * fmod(b)) == fmod(a * b),
        fmod(fmod(a) * b) == fmod(a * b),
        fmod(a * fmod(b)) == fmod(a * b),
{
    lemma_mul_mod_noop_general(a, b, fr_order());
}

} // verus!
