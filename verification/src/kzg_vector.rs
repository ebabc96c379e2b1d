//! The multi-point (vector) KZG protocol: commit to the polynomial
//! interpolating a public vector, and prove its values at a whole
//! challenge set at once with a single constant-size proof.
//!
//! The prover divides `P - I` — where `I` interpolates `P`'s values at
//! the challenges — by the vanishing polynomial of the challenge set,
//! one monic linear factor at a time, checking at each step that the
//! remainder vanishes. The verifier recomputes `I` and the vanishing
//! polynomial `Z` from public data and checks
//! `e([Q(s)], [Z(s)]) == e([P(s) - I(s)], [1])`.
use vstd::arithmetic::power::pow;
use vstd::prelude::*;

use halo2curves::bn256::Fr;

use crate::kzg::Proof;
use crate::kzg_variables::curve::{
    fmod, fr_eq, fr_neg, fr_one, fr_order, fr_val, fr_zero, g1_sub, g1_val, g2_generator, gt_eq,
    gt_val, lemma_fmod_idem, lemma_fmod_mul_noop, lemma_fmod_small, lemma_fmod_sub_noop, pairing,
};
use crate::kzg_variables::polynomial::{
    conv, g1_vals, g2_vals, lagrange_defined, lagrange_spec, lemma_conv_len,
    lemma_division_identity, lemma_lagrange_len, lemma_msm_geometric, lemma_peval_conv,
    lemma_peval_fmod, lemma_peval_lin_factor, lemma_peval_psub, lemma_peval_reduce_x, lin_factor,
    lin_quotient, msm, peval, psub, vals_of, Polynomial,
};
use crate::kzg_variables::trusted_setup::{srs_wf, Params};
use crate::KzgError;

verus! {

/// The vanishing polynomial of the first `jend` challenge points: the
/// product of `x - ch[j]` over `j < jend`, multiplied left to right.
pub open spec fn vanish_partial(ch: Seq<int>, jend: int) -> Seq<int>
    decreases jend,
{
    if jend <= 0 {
        seq![1int]
    } else {
        conv(vanish_partial(ch, jend - 1), lin_factor(ch[jend - 1]))
    }
}

/// The vanishing polynomial of the whole challenge set.
pub open spec fn vanish(ch: Seq<int>) -> Seq<int> {
    vanish_partial(ch, ch.len() as int)
}

/// The vanishing polynomial of `k` points has `k + 1` coefficients.
pub proof fn lemma_vanish_len(ch: Seq<int>, jend: int)
    requires
        0 <= jend <= ch.len(),
    ensures
        vanish_partial(ch, jend).len() == jend + 1,
    decreases jend,
{
    if jend > 0 {
        lemma_vanish_len(ch, jend - 1);
        lemma_conv_len(vanish_partial(ch, jend - 1), lin_factor(ch[jend - 1]));
    }
}

/// The vanishing polynomial reads only the points below `jend`.
pub proof fn lemma_vanish_partial_prefix(ch: Seq<int>, jend: int)
    requires
        0 <= jend < ch.len(),
    ensures
        vanish_partial(ch.drop_last(), jend) == vanish_partial(ch, jend),
    decreases jend,
{
    if jend > 0 {
        lemma_vanish_partial_prefix(ch, jend - 1);
        assert(ch.drop_last()[jend - 1] == ch[jend - 1]);
    }
}

/// The values of the interpolating polynomial at each challenge point:
/// what the restriction polynomial is built from.
pub open spec fn restriction_values(p: Seq<int>, ch: Seq<int>) -> Seq<int> {
    Seq::new(ch.len(), |i: int| peval(p, ch[i]))
}

/// The numerator `P - I` of the batch quotient: the interpolation of
/// the full vector minus the restriction polynomial through the
/// challenge points.
pub open spec fn vector_numerator(vv: Seq<int>, dv: Seq<int>, cv: Seq<int>) -> Seq<int> {
    psub(
        lagrange_spec(vv, dv),
        lagrange_spec(restriction_values(lagrange_spec(vv, dv), cv), cv),
    )
}

/// The quotient of dividing `n` by every factor `x - ch[j]` in turn,
/// highest index first — the order the prover's loop runs in.
pub open spec fn chain_quotient(n: Seq<int>, ch: Seq<int>) -> Seq<int>
    decreases ch.len(),
{
    if ch.len() == 0 {
        n
    } else {
        chain_quotient(lin_quotient(n, ch.last()), ch.drop_last())
    }
}

/// Every division step in the chain leaves a zero remainder: `n` is
/// divisible by the vanishing polynomial of `ch`, factor by factor.
pub open spec fn chain_exact(n: Seq<int>, ch: Seq<int>) -> bool
    decreases ch.len(),
{
    if ch.len() == 0 {
        true
    } else {
        peval(n, ch.last()) == 0 && chain_exact(lin_quotient(n, ch.last()), ch.drop_last())
    }
}

/// Each division by a monic linear factor drops one coefficient.
pub proof fn lemma_chain_quotient_len(n: Seq<int>, ch: Seq<int>)
    requires
        n.len() >= ch.len(),
    ensures
        chain_quotient(n, ch).len() == n.len() - ch.len(),
    decreases ch.len(),
{
    if ch.len() > 0 {
        lemma_chain_quotient_len(lin_quotient(n, ch.last()), ch.drop_last());
    }
}

/// The chain may equally be read from the front: the first challenge's
/// factor is divided out last.
pub proof fn lemma_chain_quotient_front(n: Seq<int>, ch: Seq<int>)
    requires
        ch.len() >= 1,
    ensures
        chain_quotient(n, ch) == lin_quotient(
            chain_quotient(n, ch.subrange(1, ch.len() as int)),
            ch[0],
        ),
    decreases ch.len(),
{
    if ch.len() == 1 {
        assert(ch.drop_last().len() == 0);
        assert(ch.subrange(1, 1).len() == 0);
        assert(chain_quotient(lin_quotient(n, ch.last()), ch.drop_last()) == lin_quotient(
            n,
            ch[0],
        ));
    } else {
        let n1 = lin_quotient(n, ch.last());
        lemma_chain_quotient_front(n1, ch.drop_last());
        assert(ch.drop_last()[0] == ch[0]);
        assert(ch.drop_last().subrange(1, ch.drop_last().len() as int) =~= ch.subrange(
            1,
            ch.len() as int,
        ).drop_last());
        let t = ch.subrange(1, ch.len() as int);
        assert(t.last() == ch.last());
        assert(chain_quotient(n, t) == chain_quotient(n1, t.drop_last()));
    }
}

/// Exactness, read from the front: the chain is exact for `ch` exactly
/// when it is exact for the tail and the tail's quotient vanishes at
/// the first challenge.
pub proof fn lemma_chain_exact_front(n: Seq<int>, ch: Seq<int>)
    requires
        ch.len() >= 1,
    ensures
        chain_exact(n, ch) <==> chain_exact(n, ch.subrange(1, ch.len() as int)) && peval(
            chain_quotient(n, ch.subrange(1, ch.len() as int)),
            ch[0],
        ) == 0,
    decreases ch.len(),
{
    if ch.len() == 1 {
        assert(ch.drop_last().len() == 0);
        assert(ch.subrange(1, 1).len() == 0);
        assert(chain_quotient(n, ch.subrange(1, 1)) == n);
        assert(chain_exact(lin_quotient(n, ch.last()), ch.drop_last()));
    } else {
        let n1 = lin_quotient(n, ch.last());
        lemma_chain_exact_front(n1, ch.drop_last());
        lemma_chain_quotient_front(n1, ch.drop_last());
        let t = ch.subrange(1, ch.len() as int);
        assert(ch.drop_last()[0] == ch[0]);
        assert(ch.drop_last().subrange(1, ch.drop_last().len() as int) =~= t.drop_last());
        assert(t.last() == ch.last());
        assert(chain_exact(n, t) <==> peval(n, ch.last()) == 0 && chain_exact(
            n1,
            t.drop_last(),
        ));
        assert(chain_quotient(n, t) == chain_quotient(n1, t.drop_last()));
    }
}

/// In an exact chain, the running quotient vanishes at every remaining
/// challenge point, in particular at position `j`.
pub proof fn lemma_chain_exact_at(n: Seq<int>, ch: Seq<int>, j: int)
    requires
        chain_exact(n, ch),
        0 <= j < ch.len(),
    ensures
        peval(chain_quotient(n, ch.subrange(j + 1, ch.len() as int)), ch[j]) == 0,
    decreases j,
{
    lemma_chain_exact_front(n, ch);
    let t = ch.subrange(1, ch.len() as int);
    if j == 0 {
    } else {
        lemma_chain_exact_at(n, t, j - 1);
        assert(t[j - 1] == ch[j]);
        assert(t.subrange(j, t.len() as int) =~= ch.subrange(j + 1, ch.len() as int));
    }
}

/// The chain identity: when every remainder vanishes, the numerator's
/// value at any point is the final quotient's value times the vanishing
/// polynomial's value.
pub proof fn lemma_chain_identity(n: Seq<int>, ch: Seq<int>, x: int)
    requires
        chain_exact(n, ch),
        n.len() >= ch.len(),
    ensures
        peval(n, x) == fmod(peval(chain_quotient(n, ch), x) * peval(vanish(ch), x)),
    decreases ch.len(),
{
    if ch.len() == 0 {
        assert(vanish(ch) == seq![1int]);
        assert(seq![1int].subrange(1, 1).len() == 0);
        assert(peval(seq![1int].subrange(1, 1), x) == 0);
        lemma_fmod_small(1);
        assert(peval(seq![1int], x) == fmod(1 + x * 0));
        assert(peval(vanish(ch), x) == 1);
        lemma_peval_fmod(n, x);
        assert(peval(n, x) * 1 == peval(n, x));
    } else {
        let last = ch.last();
        let bl = ch.drop_last();
        let q1 = lin_quotient(n, last);
        let qq = chain_quotient(n, ch);
        // one synthetic division with a vanishing remainder
        lemma_division_identity(n, last, x);
        assert(peval(n, x) == fmod(peval(q1, x) * (x - last) + 0));
        lemma_chain_identity(q1, bl, x);
        // the vanishing polynomial splits off its last factor
        lemma_vanish_len(ch, ch.len() - 1);
        lemma_vanish_partial_prefix(ch, ch.len() - 1);
        assert(vanish(ch) == conv(vanish(bl), lin_factor(last)));
        lemma_peval_conv(vanish(bl), lin_factor(last), x);
        lemma_peval_lin_factor(last, x);
        let qx = peval(qq, x);
        let vb = peval(vanish(bl), x);
        assert(peval(vanish(ch), x) == fmod(vb * fmod(x - last)));
        assert(peval(q1, x) == fmod(qx * vb));
        // reassociate the product under the reduction
        assert(fmod(qx * peval(vanish(ch), x)) == fmod(qx * (vb * (x - last)))) by {
            lemma_fmod_mul_noop(qx, vb * (x - last));
            assert(fmod(vb * fmod(x - last)) == fmod(vb * (x - last))) by {
                lemma_fmod_mul_noop(vb, x - last);
                lemma_fmod_idem(x - last);
            }
        }
        assert(qx * (vb * (x - last)) == (qx * vb) * (x - last)) by (nonlinear_arith);
        assert(fmod((qx * vb) * (x - last)) == fmod(peval(q1, x) * (x - last))) by {
            lemma_fmod_mul_noop(qx * vb, x - last);
            lemma_fmod_idem(qx * vb);
        }
        assert(peval(n, x) == fmod(peval(q1, x) * (x - last) + 0));
    }
}

/// When the prover succeeds: matching lengths, at least two challenge
/// points and no more than the domain has, a reference string long
/// enough for the full polynomial, both interpolations defined, and a
/// numerator that the vanishing polynomial exactly divides.
pub open spec fn vector_prove_ok(vv: Seq<int>, dv: Seq<int>, cv: Seq<int>, g1len: int) -> bool {
    &&& vv.len() == dv.len()
    &&& cv.len() >= 2
    &&& cv.len() <= dv.len()
    &&& dv.len() <= g1len
    &&& lagrange_defined(dv)
    &&& lagrange_defined(cv)
    &&& chain_exact(vector_numerator(vv, dv, cv), cv)
}

/// Proves the vector's values at every challenge point at once:
/// interpolates `P` from the vector, the restriction `I` from `P`'s
/// values at the challenges, divides `P - I` by each `x - z_i` in turn
/// — failing loudly if any remainder is not zero — and commits to `P`
/// and to the quotient.
pub fn prove(values: Vec<Fr>, domain: Vec<Fr>, challenges: Vec<Fr>, params: &Params) -> (r: Result<
    Proof,
    KzgError,
>)
    ensures
        r.is_ok() <==> vector_prove_ok(
            vals_of(values@),
            vals_of(domain@),
            vals_of(challenges@),
            params.g1@.len() as int,
        ),
        r matches Ok(pf) ==> (pf matches Proof::Batch {
            polynomial_commitment,
            quotient_commitment,
        } && g1_val(polynomial_commitment) == msm(
            lagrange_spec(vals_of(values@), vals_of(domain@)),
            g1_vals(params.g1@),
        ) && g1_val(quotient_commitment) == msm(
            chain_quotient(
                vector_numerator(vals_of(values@), vals_of(domain@), vals_of(challenges@)),
                vals_of(challenges@),
            ),
            g1_vals(params.g1@),
        )),
{
    let ghost vv = vals_of(values@);
    let ghost dv = vals_of(domain@);
    let ghost cv = vals_of(challenges@);
    let n = domain.len();
    let k = challenges.len();
    if values.len() != n {
        return Err(KzgError::LengthMismatch);
    }
    if n == 0 {
        return Err(KzgError::EmptyPolynomial);
    }
    if k < 2 {
        return Err(KzgError::TooFewChallenges);
    }
    if k > n {
        return Err(KzgError::LengthMismatch);
    }
    if n > params.g1.len() {
        return Err(KzgError::SrsTooShort);
    }
    // the polynomial through the full vector
    let polynomial = match Polynomial::lagrange(values, domain) {
        Ok(p) => p,
        Err(e) => {
            return Err(e);
        },
    };
    proof {
        lemma_lagrange_len(vv, dv, dv.len() as int);
        assert(polynomial@.len() == n);
    }
    // the values of the polynomial at the challenge points
    let mut restriction: Vec<Fr> = Vec::new();
    let mut i: usize = 0;
    while i < k
        invariant
            0 <= i <= k,
            k == challenges@.len(),
            cv == vals_of(challenges@),
            restriction@.len() == i,
            polynomial@ == lagrange_spec(vv, dv),
            forall|j: int|
                0 <= j < i ==> vals_of(restriction@)[j] == restriction_values(polynomial@, cv)[j],
        decreases k - i,
    {
        let value_at_challenge = polynomial.eval(&challenges[i]);
        let ghost old_restriction = restriction@;
        restriction.push(value_at_challenge);
        proof {
            lemma_peval_reduce_x(polynomial@, fr_val(challenges@[i as int]));
            lemma_peval_fmod(polynomial@, cv[i as int]);
            assert forall|j: int| 0 <= j < i + 1 implies vals_of(restriction@)[j]
                == restriction_values(polynomial@, cv)[j] by {
                assert(vals_of(restriction@)[j] == fmod(fr_val(restriction@[j])));
                if j < i {
                    assert(restriction@[j] == old_restriction[j]);
                    assert(vals_of(old_restriction)[j] == fmod(fr_val(old_restriction[j])));
                } else {
                    assert(restriction@[j] == value_at_challenge);
                }
            }
        }
        i = i + 1;
    }
    proof {
        assert(vals_of(restriction@) =~= restriction_values(polynomial@, cv));
    }
    // the restriction polynomial through the challenge points
    let challenges_for_interpolation =
        crate::kzg_variables::polynomial::copy_scalars(&challenges);
    let restriction_polynomial = match Polynomial::lagrange(
        restriction,
        challenges_for_interpolation,
    ) {
        Ok(p) => p,
        Err(e) => {
            return Err(e);
        },
    };
    proof {
        lemma_lagrange_len(restriction_values(polynomial@, cv), cv, cv.len() as int);
        assert(restriction_polynomial@.len() == k);
    }
    // the numerator P - I, which vanishes at every challenge point
    let numerator = polynomial.polynomial_subtraction(restriction_polynomial);
    let ghost numerator_spec = vector_numerator(vv, dv, cv);
    proof {
        assert(numerator@ == numerator_spec);
        assert(numerator@.len() == n);
    }
    // divide out one linear factor per challenge, checking each
    // remainder
    let zero = fr_zero();
    let mut current = numerator;
    let mut i: usize = k;
    proof {
        assert(cv.subrange(k as int, k as int).len() == 0);
        assert(current@ == chain_quotient(numerator_spec, cv.subrange(k as int, k as int)));
    }
    while i > 0
        invariant
            0 <= i <= k,
            2 <= k <= n,
            k == challenges@.len(),
            cv == vals_of(challenges@),
            fr_val(zero) == 0,
            vv == vals_of(values@),
            dv == vals_of(domain@),
            numerator_spec == vector_numerator(vv, dv, cv),
            numerator_spec.len() == n,
            n <= params.g1@.len(),
            current@ == chain_quotient(numerator_spec, cv.subrange(i as int, k as int)),
            current@.len() == n - (k - i),
            chain_exact(numerator_spec, cv.subrange(i as int, k as int)),
        decreases i,
    {
        i = i - 1;
        let ghost sub_prev = cv.subrange(i + 1, k as int);
        let ghost sub_now = cv.subrange(i as int, k as int);
        proof {
            assert(sub_now[0] == cv[i as int]);
            assert(sub_now.subrange(1, sub_now.len() as int) =~= sub_prev);
        }
        let remainder = current.eval(&challenges[i]);
        proof {
            lemma_peval_reduce_x(current@, fr_val(challenges@[i as int]));
            lemma_peval_fmod(current@, cv[i as int]);
        }
        if !fr_eq(&remainder, &zero) {
            proof {
                lemma_fmod_small(0);
                assert(peval(current@, cv[i as int]) != 0);
                if chain_exact(numerator_spec, cv) {
                    lemma_chain_exact_at(numerator_spec, cv, i as int);
                    assert(cv.subrange(i + 1, cv.len() as int) =~= sub_prev);
                    assert(false);
                }
                assert(!chain_exact(numerator_spec, cv));
                assert(!vector_prove_ok(vv, dv, cv, params.g1@.len() as int));
            }
            return Err(KzgError::InexactDivision);
        }
        let mut divisor_coefficients: Vec<Fr> = Vec::new();
        divisor_coefficients.push(fr_neg(&challenges[i]));
        divisor_coefficients.push(fr_one());
        let divisor = Polynomial::new(divisor_coefficients);
        proof {
            lemma_fmod_small(1);
            lemma_fmod_idem(0 - fr_val(challenges@[i as int]));
            lemma_fmod_sub_noop(0, fmod(0 - fr_val(challenges@[i as int])));
            lemma_fmod_sub_noop(0, fr_val(challenges@[i as int]));
            assert(divisor@.len() == 2 && divisor@[1] == 1);
            assert(fmod(0 - divisor@[0]) == cv[i as int]);
        }
        let ghost before = current@;
        current = match current.long_division(divisor) {
            Ok(q) => q,
            Err(e) => {
                return Err(e);
            },
        };
        proof {
            assert(current@ == lin_quotient(before, cv[i as int]));
            lemma_fmod_small(0);
            assert(peval(before, cv[i as int]) == 0);
            lemma_chain_quotient_front(numerator_spec, sub_now);
            lemma_chain_exact_front(numerator_spec, sub_now);
        }
    }
    proof {
        assert(cv.subrange(0, k as int) =~= cv);
    }
    let polynomial_commitment = match polynomial.commitment_g1(&params.g1) {
        Ok(c) => c,
        Err(e) => {
            return Err(e);
        },
    };
    let quotient_commitment = match current.commitment_g1(&params.g1) {
        Ok(c) => c,
        Err(e) => {
            return Err(e);
        },
    };
    Ok(Proof::Batch { polynomial_commitment, quotient_commitment })
}

/// When the verifier can run: matching lengths, a nonempty vector, at
/// least two challenge points, both interpolations defined, and a
/// reference string long enough to commit the restriction polynomial in
/// `G1` and the vanishing polynomial in `G2`.
pub open spec fn vector_verify_ok(
    vv: Seq<int>,
    dv: Seq<int>,
    cv: Seq<int>,
    g1len: int,
    g2len: int,
) -> bool {
    &&& vv.len() == dv.len()
    &&& dv.len() >= 1
    &&& cv.len() >= 2
    &&& cv.len() <= g1len
    &&& cv.len() + 1 <= g2len
    &&& lagrange_defined(dv)
    &&& lagrange_defined(cv)
}

/// The verifier's pairing equation over the integer models: the
/// quotient commitment times the vanishing polynomial at the secret,
/// against the polynomial commitment minus the restriction commitment.
pub open spec fn batch_check(qc: int, pc: int, ic: int, zc: int) -> bool {
    fmod(qc * zc) == fmod(pc - ic)
}

/// Verifies a batch proof: recomputes the restriction polynomial `I`
/// and the vanishing polynomial `Z` from the public vector, domain and
/// challenge set, and checks
/// `e(quotient, [Z(s)]_2) == e(commitment - [I(s)]_1, [1]_2)`.
pub fn verify(
    pf: Proof,
    values: Vec<Fr>,
    domain: Vec<Fr>,
    challenges: Vec<Fr>,
    params: &Params,
) -> (r: Result<bool, KzgError>)
    ensures
        r.is_ok() <==> (pf matches Proof::Batch { .. }) && vector_verify_ok(
            vals_of(values@),
            vals_of(domain@),
            vals_of(challenges@),
            params.g1@.len() as int,
            params.g2@.len() as int,
        ),
        r matches Ok(b) ==> (pf matches Proof::Batch { polynomial_commitment, quotient_commitment }
            && b == batch_check(
            fmod(g1_val(quotient_commitment)),
            fmod(g1_val(polynomial_commitment)),
            msm(
                lagrange_spec(
                    restriction_values(
                        lagrange_spec(vals_of(values@), vals_of(domain@)),
                        vals_of(challenges@),
                    ),
                    vals_of(challenges@),
                ),
                g1_vals(params.g1@),
            ),
            msm(vanish(vals_of(challenges@)), g2_vals(params.g2@)),
        )),
{
    let ghost vv = vals_of(values@);
    let ghost dv = vals_of(domain@);
    let ghost cv = vals_of(challenges@);
    match pf {
        Proof::Point { polynomial_commitment: _, quotient_commitment: _, evaluation: _ } => {
            Err(KzgError::WrongProofKind)
        },
        Proof::Batch { polynomial_commitment, quotient_commitment } => {
            let n = domain.len();
            let k = challenges.len();
            if values.len() != n {
                Err(KzgError::LengthMismatch)
            } else if n == 0 {
                Err(KzgError::EmptyPolynomial)
            } else if k < 2 {
                Err(KzgError::TooFewChallenges)
            } else if k > params.g1.len() || k >= params.g2.len() {
                Err(KzgError::SrsTooShort)
            } else {
                // the polynomial through the full public vector
                let polynomial = match Polynomial::lagrange(values, domain) {
                    Ok(p) => p,
                    Err(e) => {
                        return Err(e);
                    },
                };
                proof {
                    lemma_lagrange_len(vv, dv, dv.len() as int);
                }
                // its values at the challenge points
                let mut restriction: Vec<Fr> = Vec::new();
                let mut i: usize = 0;
                while i < k
                    invariant
                        0 <= i <= k,
                        k == challenges@.len(),
                        cv == vals_of(challenges@),
                        restriction@.len() == i,
                        polynomial@ == lagrange_spec(vv, dv),
                        forall|j: int|
                            0 <= j < i ==> vals_of(restriction@)[j] == restriction_values(
                                polynomial@,
                                cv,
                            )[j],
                    decreases k - i,
                {
                    let value_at_challenge = polynomial.eval(&challenges[i]);
                    let ghost old_restriction = restriction@;
                    restriction.push(value_at_challenge);
                    proof {
                        lemma_peval_reduce_x(polynomial@, fr_val(challenges@[i as int]));
                        lemma_peval_fmod(polynomial@, cv[i as int]);
                        assert forall|j: int| 0 <= j < i + 1 implies vals_of(restriction@)[j]
                            == restriction_values(polynomial@, cv)[j] by {
                            assert(vals_of(restriction@)[j] == fmod(fr_val(restriction@[j])));
                            if j < i {
                                assert(restriction@[j] == old_restriction[j]);
                                assert(vals_of(old_restriction)[j] == fmod(
                                    fr_val(old_restriction[j]),
                                ));
                            } else {
                                assert(restriction@[j] == value_at_challenge);
                            }
                        }
                    }
                    i = i + 1;
                }
                proof {
                    assert(vals_of(restriction@) =~= restriction_values(polynomial@, cv));
                }
                // the restriction polynomial through the challenge points
                let challenges_for_interpolation = crate::kzg_variables::polynomial::copy_scalars(
                    &challenges,
                );
                let challenge_polynomial = match Polynomial::lagrange(
                    restriction,
                    challenges_for_interpolation,
                ) {
                    Ok(p) => p,
                    Err(e) => {
                        return Err(e);
                    },
                };
                proof {
                    lemma_lagrange_len(restriction_values(polynomial@, cv), cv, cv.len() as int);
                }
                let challenge_polynomial_commitment = match challenge_polynomial.commitment_g1(
                    &params.g1,
                ) {
                    Ok(c) => c,
                    Err(e) => {
                        return Err(e);
                    },
                };
                // the vanishing polynomial of the challenge set
                let mut one_vec: Vec<Fr> = Vec::new();
                one_vec.push(fr_one());
                let mut zero_polynomial = Polynomial { coefficients: one_vec };
                proof {
                    lemma_fmod_small(1);
                    assert(zero_polynomial@ =~= seq![1int]);
                }
                let mut j: usize = 0;
                while j < k
                    invariant
                        0 <= j <= k,
                        k == challenges@.len(),
                        cv == vals_of(challenges@),
                        zero_polynomial@ == vanish_partial(cv, j as int),
                        zero_polynomial@.len() == j + 1,
                    decreases k - j,
                {
                    let mut factor_vec: Vec<Fr> = Vec::new();
                    factor_vec.push(fr_neg(&challenges[j]));
                    factor_vec.push(fr_one());
                    let factor = Polynomial { coefficients: factor_vec };
                    proof {
                        lemma_fmod_sub_noop(0, fr_val(challenges@[j as int]));
                        lemma_fmod_small(1);
                        assert(factor@ =~= lin_factor(cv[j as int]));
                        lemma_conv_len(zero_polynomial@, factor@);
                    }
                    zero_polynomial = zero_polynomial.polynomial_multiplication(factor);
                    j = j + 1;
                }
                proof {
                    assert(zero_polynomial@ == vanish(cv));
                }
                let zero_polynomial_commitment = match zero_polynomial.commitment_g2(&params.g2) {
                    Ok(c) => c,
                    Err(e) => {
                        return Err(e);
                    },
                };
                let ghost icv = msm(
                    lagrange_spec(restriction_values(lagrange_spec(vv, dv), cv), cv),
                    g1_vals(params.g1@),
                );
                let ghost zcv = msm(vanish(cv), g2_vals(params.g2@));
                // e([Q(s)], [Z(s)])
                let pair_1 = pairing(&quotient_commitment, &zero_polynomial_commitment);
                proof {
                    lemma_msm_range(vanish(cv), g2_vals(params.g2@));
                    assert(gt_val(pair_1) == fmod(fmod(g1_val(quotient_commitment)) * zcv)) by {
                        lemma_fmod_mul_noop(g1_val(quotient_commitment), zcv);
                        lemma_fmod_idem(zcv);
                        lemma_fmod_small(zcv);
                    }
                }
                // e([P(s) - I(s)], [1])
                let generator_g2 = g2_generator();
                let polynomial_commitment_sub_challenge_commitment = g1_sub(
                    &polynomial_commitment,
                    &challenge_polynomial_commitment,
                );
                let pair_2 = pairing(
                    &polynomial_commitment_sub_challenge_commitment,
                    &generator_g2,
                );
                proof {
                    lemma_msm_range(
                        lagrange_spec(restriction_values(lagrange_spec(vv, dv), cv), cv),
                        g1_vals(params.g1@),
                    );
                    assert(g1_val(polynomial_commitment_sub_challenge_commitment) == fmod(
                        fmod(g1_val(polynomial_commitment)) - icv,
                    )) by {
                        lemma_fmod_sub_noop(g1_val(polynomial_commitment), icv);
                        lemma_fmod_idem(icv);
                        lemma_fmod_small(icv);
                    }
                    assert(gt_val(pair_2) == fmod(fmod(g1_val(polynomial_commitment)) - icv)) by {
                        assert(g1_val(polynomial_commitment_sub_challenge_commitment) * 1
                            == g1_val(polynomial_commitment_sub_challenge_commitment));
                        lemma_fmod_idem(fmod(g1_val(polynomial_commitment)) - icv);
                    }
                }
                let res = gt_eq(&pair_1, &pair_2);
                proof {
                    lemma_fmod_idem(fmod(g1_val(quotient_commitment)) * zcv);
                    lemma_fmod_idem(fmod(g1_val(polynomial_commitment)) - icv);
                }
                Ok(res)
            }
        },
    }
}

/// Round-trip correctness of the batch protocol: whenever the prover
/// succeeds — the numerator `P - I` is exactly divisible by the
/// vanishing polynomial — the commitments it emits pass the verifier's
/// pairing equation.
pub proof fn lemma_vector_round_trip(
    vv: Seq<int>,
    dv: Seq<int>,
    cv: Seq<int>,
    g1s: Seq<int>,
    g2s: Seq<int>,
    s: int,
)
    requires
        srs_wf(g1s, g2s, s),
        vector_prove_ok(vv, dv, cv, g1s.len() as int),
        cv.len() + 1 <= g2s.len(),
    ensures
        batch_check(
            msm(chain_quotient(vector_numerator(vv, dv, cv), cv), g1s),
            msm(lagrange_spec(vv, dv), g1s),
            msm(lagrange_spec(restriction_values(lagrange_spec(vv, dv), cv), cv), g1s),
            msm(vanish(cv), g2s),
        ),
{
    let n = dv.len() as int;
    let k = cv.len() as int;
    let p = lagrange_spec(vv, dv);
    let rv = restriction_values(p, cv);
    let ip = lagrange_spec(rv, cv);
    let num = vector_numerator(vv, dv, cv);
    let q = chain_quotient(num, cv);
    let z = vanish(cv);
    // lengths
    lemma_lagrange_len(vv, dv, n);
    lemma_lagrange_len(rv, cv, k);
    assert(p.len() == n);
    assert(ip.len() == k);
    assert(num.len() == n);
    lemma_chain_quotient_len(num, cv);
    assert(q.len() == n - k);
    lemma_vanish_len(cv, k);
    assert(z.len() == k + 1);
    // each commitment is an evaluation at the secret, in the exponent
    assert forall|j: int| 0 <= j < g1s.len() implies g1s[j] == fmod(1 * pow(s, j as nat)) by {
        assert(1 * pow(s, j as nat) == pow(s, j as nat));
    }
    assert forall|j: int| 0 <= j < g2s.len() implies g2s[j] == fmod(1 * pow(s, j as nat)) by {
        assert(1 * pow(s, j as nat) == pow(s, j as nat));
    }
    lemma_msm_geometric(p, g1s, s, 1);
    lemma_msm_geometric(ip, g1s, s, 1);
    lemma_msm_geometric(q, g1s, s, 1);
    lemma_msm_geometric(z, g2s, s, 1);
    lemma_peval_fmod(p, s);
    lemma_peval_fmod(ip, s);
    lemma_peval_fmod(q, s);
    lemma_peval_fmod(z, s);
    assert(1 * peval(p, s) == peval(p, s));
    assert(1 * peval(ip, s) == peval(ip, s));
    assert(1 * peval(q, s) == peval(q, s));
    assert(1 * peval(z, s) == peval(z, s));
    assert(msm(p, g1s) == peval(p, s));
    assert(msm(ip, g1s) == peval(ip, s));
    assert(msm(q, g1s) == peval(q, s));
    assert(msm(z, g2s) == peval(z, s));
    // the chain identity at the secret: N(s) = Q(s) * Z(s)
    lemma_chain_identity(num, cv, s);
    assert(peval(num, s) == fmod(peval(q, s) * peval(z, s)));
    // and N = P - I coefficient-wise: N(s) = P(s) - I(s)
    lemma_peval_psub(p, ip, s);
    assert(peval(num, s) == fmod(peval(p, s) - peval(ip, s)));
}

/// A multi-scalar multiplication is a canonical residue or zero.
pub proof fn lemma_msm_range(c: Seq<int>, b: Seq<int>)
    ensures
        0 <= msm(c, b) < fr_order(),
{
    if c.len() == 0 || b.len() == 0 {
    } else {
        crate::kzg_variables::curve::lemma_fmod_bound(
            c[0] * b[0] + msm(
                c.subrange(1, c.len() as int),
                b.subrange(1, b.len() as int),
            ),
        );
    }
}

} // verus!
