//! The single-point KZG protocol: commit to a polynomial, prove its
//! value at one challenge point, and verify that claim through one
//! pairing equation.
//!
//! The pairing check compares `e([Q(s)], [s - z])` with
//! `e([P(s) - y], [1])`: by bilinearity it holds exactly when
//! `Q(s) * (s - z) = P(s) - y` in the scalar field, and the proofs
//! below show that an honest quotient always satisfies that identity
//! while a tampered evaluation never does.
use vstd::arithmetic::div_mod::lemma_mod_equivalence;
use vstd::arithmetic::power::pow;
use vstd::prelude::*;

use halo2curves::bn256::{Fr, G1Affine};

use crate::kzg_variables::curve::{
    fmod, fr_neg, fr_one, fr_order, fr_sub, fr_val, g1_generator, g1_scale, g1_sub, g1_val,
    g2_generator, g2_scale, g2_sub, g2_val, gt_eq, gt_val, lemma_fmod_add_congruent,
    lemma_fmod_idem, lemma_fmod_mul_noop, lemma_fmod_small, lemma_fmod_sub_noop, pairing,
};
use crate::kzg_variables::polynomial::{
    g1_vals, g2_vals, lemma_division_identity, lemma_msm_geometric, lemma_peval_fmod,
    lemma_peval_range, lemma_peval_reduce_x, lin_quotient, msm, peval, vals_of, Polynomial,
};
use crate::kzg_variables::trusted_setup::{srs_wf, Params};
use crate::KzgError;

verus! {

/// An evaluation proof: two commitments, and — for a single-point
/// opening — the claimed value. A multi-point opening carries no
/// explicit value, because the verifier recomputes the claimed values
/// from public data; keeping the two shapes apart stops a caller from
/// ever reading a meaningless evaluation out of a batch proof.
#[derive(Debug)]
pub enum Proof {
    /// A single-point opening: `P(z) = evaluation`.
    Point {
        polynomial_commitment: G1Affine,
        quotient_commitment: G1Affine,
        evaluation: Fr,
    },
    /// A multi-point opening of a whole challenge set at once.
    Batch { polynomial_commitment: G1Affine, quotient_commitment: G1Affine },
}

/// The polynomial with its constant term reduced by `y`: the numerator
/// `P - y`, built so that it vanishes at the challenge when
/// `y = P(z)`.
pub open spec fn shifted_down(p: Seq<int>, y: int) -> Seq<int> {
    p.update(0, fmod(p[0] - y))
}

/// Reducing the constant term by `y` reduces the value at every point
/// by `y`.
pub proof fn lemma_shifted_down_eval(p: Seq<int>, y: int, x: int)
    requires
        p.len() >= 1,
    ensures
        peval(shifted_down(p, y), x) == fmod(peval(p, x) - y),
{
    let num = shifted_down(p, y);
    let tail = p.subrange(1, p.len() as int);
    assert(num.subrange(1, num.len() as int) =~= tail);
    let t = peval(tail, x);
    assert(peval(num, x) == fmod(fmod(p[0] - y) + x * t));
    assert(fmod(fmod(p[0] - y) + x * t) == fmod(p[0] - y + x * t)) by {
        lemma_fmod_add_congruent(fmod(p[0] - y), p[0] - y, x * t);
        lemma_fmod_idem(p[0] - y);
    }
    assert(peval(p, x) == fmod(p[0] + x * t));
    assert(fmod(peval(p, x) - y) == fmod(p[0] + x * t - y)) by {
        lemma_fmod_sub_noop(p[0] + x * t, y);
        lemma_fmod_idem(p[0] + x * t);
    }
}

/// The verifier's pairing equation over the integer models: the
/// quotient commitment times `s - z` in the exponent against the
/// polynomial commitment minus the claimed value in the exponent.
/// `s1` is the verifier's only handle on the secret: the model of the
/// second `G2` power of the reference string.
pub open spec fn point_check(qc: int, pc: int, y: int, z: int, s1: int) -> bool {
    fmod(qc * fmod(s1 - z)) == fmod(pc - fmod(y))
}

/// Proves `P(z) = y`: evaluates the polynomial at the challenge,
/// divides `P - y` by `x - z`, and commits to both `P` and the
/// quotient. Fails on an empty polynomial and on a reference string
/// with fewer powers than the polynomial has coefficients.
pub fn prove(polynomial: Polynomial, challenge: Fr, params: &Params) -> (r: Result<
    Proof,
    KzgError,
>)
    ensures
        r.is_ok() <==> 1 <= polynomial@.len() <= params.g1@.len(),
        r matches Ok(pf) ==> pf matches Proof::Point {
            polynomial_commitment,
            quotient_commitment,
            evaluation,
        } && {
            let z = fmod(fr_val(challenge));
            let y = peval(polynomial@, z);
            &&& g1_val(polynomial_commitment) == msm(polynomial@, g1_vals(params.g1@))
            &&& fr_val(evaluation) == y
            &&& g1_val(quotient_commitment) == msm(
                lin_quotient(shifted_down(polynomial@, y), z),
                g1_vals(params.g1@),
            )
        },
{
    let n = polynomial.coefficients.len();
    if n == 0 {
        return Err(KzgError::EmptyPolynomial);
    }
    if n > params.g1.len() {
        return Err(KzgError::SrsTooShort);
    }
    let ghost z = fmod(fr_val(challenge));
    let eval_of_challenge = polynomial.eval(&challenge);
    proof {
        lemma_peval_reduce_x(polynomial@, fr_val(challenge));
    }
    // the numerator: the polynomial with its constant term reduced by the
    // evaluation, so that it vanishes at the challenge
    let mut numerator_coefficients: Vec<Fr> = Vec::new();
    let first = fr_sub(&polynomial.coefficients[0], &eval_of_challenge);
    numerator_coefficients.push(first);
    let mut i: usize = 1;
    while i < n
        invariant
            1 <= i <= n,
            n == polynomial.coefficients@.len(),
            numerator_coefficients@.len() == i,
            numerator_coefficients@[0] == first,
            forall|j: int| 1 <= j < i ==> numerator_coefficients@[j] == polynomial.coefficients@[j],
        decreases n - i,
    {
        numerator_coefficients.push(polynomial.coefficients[i]);
        i = i + 1;
    }
    let ghost ncs = numerator_coefficients@;
    let numerator = Polynomial::new(numerator_coefficients);
    proof {
        let y = fr_val(eval_of_challenge);
        assert forall|j: int| 0 <= j < n implies vals_of(ncs)[j] == shifted_down(
            polynomial@,
            y,
        )[j] by {
            assert(vals_of(ncs)[j] == fmod(fr_val(ncs[j])));
            if j == 0 {
                lemma_fmod_idem(fr_val(polynomial.coefficients@[0]) - y);
                lemma_fmod_sub_noop(fr_val(polynomial.coefficients@[0]), y);
                lemma_fmod_idem(y);
            }
        }
        assert(vals_of(ncs) =~= shifted_down(polynomial@, fr_val(eval_of_challenge)));
        assert(numerator@ == shifted_down(polynomial@, fr_val(eval_of_challenge)));
    }
    // the divisor x - z, monic and linear
    let mut divisor_coefficients: Vec<Fr> = Vec::new();
    divisor_coefficients.push(fr_neg(&challenge));
    divisor_coefficients.push(fr_one());
    let divisor = Polynomial::new(divisor_coefficients);
    proof {
        lemma_fmod_small(1);
        lemma_fmod_idem(0 - fr_val(challenge));
        lemma_fmod_sub_noop(0, fmod(0 - fr_val(challenge)));
        lemma_fmod_sub_noop(0, fr_val(challenge));
        assert(divisor@.len() == 2 && divisor@[1] == 1);
        assert(fmod(0 - divisor@[0]) == z);
    }
    let quotient_polynomial = match numerator.long_division(divisor) {
        Ok(q) => q,
        Err(e) => {
            return Err(e);
        },
    };
    let polynomial_commitment = match polynomial.commitment_g1(&params.g1) {
        Ok(c) => c,
        Err(e) => {
            return Err(e);
        },
    };
    let quotient_commitment = match quotient_polynomial.commitment_g1(&params.g1) {
        Ok(c) => c,
        Err(e) => {
            return Err(e);
        },
    };
    Ok(
        Proof::Point {
            polynomial_commitment,
            quotient_commitment,
            evaluation: eval_of_challenge,
        },
    )
}

/// Verifies a single-point proof: checks the pairing equation
/// `e(quotient, [s - z]_2) == e(commitment - [y]_1, [1]_2)`. A `false`
/// answer is the normal outcome for a proof that does not match the
/// claim; only a batch-shaped proof or a too-short reference string is
/// an error.
pub fn verify(pf: Proof, challenge: Fr, params: &Params) -> (r: Result<bool, KzgError>)
    ensures
        r.is_ok() <==> (pf matches Proof::Point { .. }) && params.g2@.len() >= 2,
        r matches Ok(b) ==> (pf matches Proof::Point {
            polynomial_commitment,
            quotient_commitment,
            evaluation,
        } && b == point_check(
            fmod(g1_val(quotient_commitment)),
            fmod(g1_val(polynomial_commitment)),
            fr_val(evaluation),
            fmod(fr_val(challenge)),
            g2_vals(params.g2@)[1],
        )),
{
    match pf {
        Proof::Point { polynomial_commitment, quotient_commitment, evaluation } => {
            if params.g2.len() < 2 {
                Err(KzgError::SrsTooShort)
            } else {
                let ghost z = fmod(fr_val(challenge));
                let ghost s1 = g2_vals(params.g2@)[1];
                // lift s - z into G2 without knowing s
                let generator_g2 = g2_generator();
                let challenge_g2 = g2_scale(&generator_g2, &challenge);
                let s_sub_challenge = g2_sub(&params.g2[1], &challenge_g2);
                proof {
                    assert(fmod(1 * fr_val(challenge)) == z) by {
                        assert(1 * fr_val(challenge) == fr_val(challenge));
                    }
                    assert(g2_val(s_sub_challenge) == fmod(s1 - z)) by {
                        lemma_fmod_sub_noop(g2_val(params.g2@[1]), z);
                        lemma_fmod_idem(z);
                        lemma_fmod_small(fmod(g2_val(params.g2@[1]) - z));
                    }
                }
                let pair_1 = pairing(&quotient_commitment, &s_sub_challenge);
                proof {
                    assert(gt_val(pair_1) == fmod(fmod(g1_val(quotient_commitment)) * fmod(s1 - z)))
                        by {
                        lemma_fmod_mul_noop(g1_val(quotient_commitment), fmod(s1 - z));
                        lemma_fmod_idem(s1 - z);
                    }
                }
                // the claimed value lifted into G1
                let generator_g1 = g1_generator();
                let eval_of_challenge_g1 = g1_scale(&generator_g1, &evaluation);
                let polynomial_commitment_sub_y = g1_sub(&polynomial_commitment, &eval_of_challenge_g1);
                let pair_2 = pairing(&polynomial_commitment_sub_y, &generator_g2);
                proof {
                    assert(fmod(1 * fr_val(evaluation)) == fmod(fr_val(evaluation))) by {
                        assert(1 * fr_val(evaluation) == fr_val(evaluation));
                    }
                    assert(g1_val(polynomial_commitment_sub_y) == fmod(
                        fmod(g1_val(polynomial_commitment)) - fmod(fr_val(evaluation)),
                    )) by {
                        lemma_fmod_sub_noop(g1_val(polynomial_commitment), fr_val(evaluation));
                    }
                    assert(gt_val(pair_2) == fmod(
                        fmod(g1_val(polynomial_commitment)) - fmod(fr_val(evaluation)),
                    )) by {
                        assert(g1_val(polynomial_commitment_sub_y) * 1 == g1_val(
                            polynomial_commitment_sub_y,
                        ));
                        lemma_fmod_idem(
                            fmod(g1_val(polynomial_commitment)) - fmod(fr_val(evaluation)),
                        );
                    }
                    assert(fmod(fmod(g1_val(polynomial_commitment)) - fmod(fr_val(evaluation)))
                        == fmod(fmod(g1_val(polynomial_commitment)) - fr_val(evaluation))) by {
                        lemma_fmod_sub_noop(fmod(g1_val(polynomial_commitment)), fr_val(evaluation));
                    }
                }
                let res = gt_eq(&pair_1, &pair_2);
                proof {
                    lemma_fmod_idem(fmod(g1_val(quotient_commitment)) * fmod(s1 - z));
                    lemma_fmod_idem(fmod(g1_val(polynomial_commitment)) - fr_val(evaluation));
                }
                Ok(res)
            }
        },
        _ => {
            Err(KzgError::WrongProofKind)
        },
    }
}

/// Round-trip correctness: for any polynomial of degree below the
/// reference string's length and any challenge, the proof that `prove`
/// builds — the commitment to `P`, the commitment to the quotient of
/// `P - P(z)` by `x - z`, and the value `P(z)` — passes the verifier's
/// pairing equation.
pub proof fn lemma_round_trip(p: Seq<int>, z: int, g1s: Seq<int>, g2s: Seq<int>, s: int)
    requires
        srs_wf(g1s, g2s, s),
        1 <= p.len() <= g1s.len(),
        g2s.len() >= 2,
        0 <= z < fr_order(),
    ensures
        point_check(
            msm(lin_quotient(shifted_down(p, peval(p, z)), z), g1s),
            msm(p, g1s),
            peval(p, z),
            z,
            g2s[1],
        ),
{
    let y = peval(p, z);
    let num = shifted_down(p, y);
    let q = lin_quotient(num, z);
    assert(num.len() == p.len());
    assert(q.len() == p.len() - 1);
    // commitments evaluate at the secret, in the exponent
    assert forall|j: int| 0 <= j < p.len() implies g1s[j] == fmod(1 * pow(s, j as nat)) by {
        assert(1 * pow(s, j as nat) == pow(s, j as nat));
    }
    lemma_msm_geometric(p, g1s, s, 1);
    lemma_msm_geometric(q, g1s, s, 1);
    assert(msm(p, g1s) == fmod(1 * peval(p, s)));
    assert(1 * peval(p, s) == peval(p, s));
    assert(1 * peval(q, s) == peval(q, s));
    let pcv = msm(p, g1s);
    let qcv = msm(q, g1s);
    assert(pcv == fmod(peval(p, s)));
    assert(qcv == fmod(peval(q, s)));
    lemma_peval_fmod(p, s);
    lemma_peval_fmod(q, s);
    assert(pcv == peval(p, s));
    assert(qcv == peval(q, s));
    // the division identity at the secret
    lemma_division_identity(num, z, s);
    // the numerator vanishes at the challenge
    lemma_shifted_down_eval(p, y, z);
    lemma_fmod_small(0);
    assert(peval(num, z) == fmod(y - y));
    assert(peval(num, z) == 0);
    lemma_shifted_down_eval(p, y, s);
    // peval(num, s) == fmod(peval(p, s) - y) == fmod(qcv * (s - z) + 0)
    assert(fmod(peval(p, s) - y) == fmod(peval(q, s) * (s - z) + 0));
    // fold the check's two sides onto this identity
    assert(g2s[1] == fmod(pow(s, 1nat)));
    assert(pow(s, 1nat) == s * pow(s, 0nat) && pow(s, 0nat) == 1) by {
        vstd::arithmetic::power::lemma_pow0(s);
        vstd::arithmetic::power::lemma_pow1(s);
    }
    assert(g2s[1] == fmod(s));
    assert(fmod(g2s[1] - z) == fmod(s - z)) by {
        lemma_fmod_sub_noop(s, z);
        lemma_fmod_idem(z);
        lemma_fmod_small(z);
    }
    lemma_peval_range(q, s);
    assert(fmod(qcv * fmod(s - z)) == fmod(qcv * (s - z))) by {
        lemma_fmod_mul_noop(qcv, s - z);
        lemma_fmod_idem(qcv);
        lemma_fmod_small(qcv);
    }
    assert(fmod(qcv * (s - z)) == fmod(peval(p, s) - y)) by {
        assert(peval(q, s) * (s - z) + 0 == qcv * (s - z));
    }
    assert(fmod(pcv - fmod(y)) == fmod(peval(p, s) - y)) by {
        lemma_peval_range(p, z);
        lemma_fmod_small(y);
        lemma_fmod_sub_noop(peval(p, s), y);
        lemma_peval_range(p, s);
        lemma_fmod_small(pcv);
        lemma_fmod_idem(pcv - y);
        assert(fmod(fmod(pcv) - fmod(y)) == fmod(pcv - y));
    }
}

/// Commitment binding, reduced to the secret: two polynomials whose
/// values at the secret exponent differ have different commitments.
/// For distinct polynomials of degree below the reference string's
/// length, the values can only coincide when the secret is one of the
/// difference's few roots, which a uniformly drawn secret misses with
/// overwhelming probability.
pub proof fn lemma_commitment_binding(
    p: Seq<int>,
    q: Seq<int>,
    g1s: Seq<int>,
    g2s: Seq<int>,
    s: int,
)
    requires
        srs_wf(g1s, g2s, s),
        p.len() <= g1s.len(),
        q.len() <= g1s.len(),
        peval(p, s) != peval(q, s),
    ensures
        msm(p, g1s) != msm(q, g1s),
{
    assert forall|j: int| 0 <= j < g1s.len() implies g1s[j] == fmod(1 * pow(s, j as nat)) by {
        assert(1 * pow(s, j as nat) == pow(s, j as nat));
    }
    lemma_msm_geometric(p, g1s, s, 1);
    lemma_msm_geometric(q, g1s, s, 1);
    assert(1 * peval(p, s) == peval(p, s));
    assert(1 * peval(q, s) == peval(q, s));
    lemma_peval_fmod(p, s);
    lemma_peval_fmod(q, s);
}

/// Negative-case soundness: keep the two commitments honest but
/// replace the proof's evaluation by any value whose residue is not
/// `P(z)`, and the verifier's pairing equation fails.
pub proof fn lemma_tampered_evaluation_rejected(
    p: Seq<int>,
    z: int,
    forged: int,
    g1s: Seq<int>,
    g2s: Seq<int>,
    s: int,
)
    requires
        srs_wf(g1s, g2s, s),
        1 <= p.len() <= g1s.len(),
        g2s.len() >= 2,
        0 <= z < fr_order(),
        fmod(forged) != peval(p, z),
    ensures
        !point_check(
            msm(lin_quotient(shifted_down(p, peval(p, z)), z), g1s),
            msm(p, g1s),
            forged,
            z,
            g2s[1],
        ),
{
    let y = peval(p, z);
    let qcv = msm(lin_quotient(shifted_down(p, y), z), g1s);
    let pcv = msm(p, g1s);
    lemma_round_trip(p, z, g1s, g2s, s);
    // the honest check holds, so the left pairing equals pc - y in the
    // exponent; a forged value changes the right side by y - forged
    assert(fmod(qcv * fmod(g2s[1] - z)) == fmod(pcv - fmod(y)));
    if point_check(qcv, pcv, forged, z, g2s[1]) {
        assert(fmod(pcv - fmod(y)) == fmod(pcv - fmod(forged)));
        lemma_mod_equivalence(pcv - fmod(y), pcv - fmod(forged), fr_order());
        assert(((pcv - fmod(y)) - (pcv - fmod(forged))) % fr_order() == 0);
        assert((fmod(forged) - fmod(y)) % fr_order() == 0);
        lemma_mod_equivalence(fmod(forged), fmod(y), fr_order());
        assert(fmod(fmod(forged)) == fmod(fmod(y)));
        lemma_fmod_idem(forged);
        lemma_fmod_idem(y);
        lemma_peval_range(p, z);
        lemma_fmod_small(y);
        assert(fmod(forged) == y);
        assert(false);
    }
}

} // verus!
