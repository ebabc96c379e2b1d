//! The polynomial engine: coefficient sequences over the BN254 scalar
//! field, with evaluation, ring operations, synthetic division by a
//! monic linear factor, Lagrange interpolation, and commitment against
//! a reference string.
//!
//! Every operation's contract is stated over the polynomial's model: the
//! sequence of canonical residues its coefficients stand for, index `i`
//! holding the coefficient of `x^i`.
use vstd::arithmetic::power::pow;
use vstd::prelude::*;

use halo2curves::bn256::{Fr, G1Affine, G2Affine};

use crate::kzg_variables::curve::{
    fmod, fr_add, fr_eq, fr_invert, fr_mul, fr_neg, fr_one, fr_order, fr_random, fr_sub, fr_val,
    fr_zero, g1_add, g1_identity, g1_scale, g1_val, g2_add, g2_identity, g2_scale, g2_val,
    lemma_fmod_add_congruent, lemma_fmod_add_noop, lemma_fmod_bound, lemma_fmod_idem,
    lemma_fmod_mul_congruent, lemma_fmod_mul_noop, lemma_fmod_small, lemma_fmod_sub_noop,
};
use crate::KzgError;

verus! {

/// The canonical residues that a sequence of scalars stands for.
pub open spec fn vals_of(s: Seq<Fr>) -> Seq<int> {
    s.map(|i: int, c: Fr| fmod(fr_val(c)))
}

/// The residues that a sequence of `G1` points stands for.
pub open spec fn g1_vals(s: Seq<G1Affine>) -> Seq<int> {
    s.map(|i: int, p: G1Affine| fmod(g1_val(p)))
}

/// The residues that a sequence of `G2` points stands for.
pub open spec fn g2_vals(s: Seq<G2Affine>) -> Seq<int> {
    s.map(|i: int, p: G2Affine| fmod(g2_val(p)))
}

/// Horner evaluation of a coefficient sequence at `x`, reduced at every
/// step: the value of the polynomial at `x` in the scalar field.
pub open spec fn peval(c: Seq<int>, x: int) -> int
    decreases c.len(),
{
    if c.len() == 0 {
        0
    } else {
        fmod(c[0] + x * peval(c.subrange(1, c.len() as int), x))
    }
}

/// The coefficient at `i`, with a missing high coefficient read as zero.
pub open spec fn at_or_zero(s: Seq<int>, i: int) -> int {
    if 0 <= i < s.len() {
        s[i]
    } else {
        0
    }
}

/// Coefficient-wise sum over the longer length.
pub open spec fn padd(a: Seq<int>, b: Seq<int>) -> Seq<int> {
    Seq::new(
        if a.len() >= b.len() {
            a.len()
        } else {
            b.len()
        },
        |i: int| fmod(at_or_zero(a, i) + at_or_zero(b, i)),
    )
}

/// Coefficient-wise difference over the longer length.
pub open spec fn psub(a: Seq<int>, b: Seq<int>) -> Seq<int> {
    Seq::new(
        if a.len() >= b.len() {
            a.len()
        } else {
            b.len()
        },
        |i: int| fmod(at_or_zero(a, i) - at_or_zero(b, i)),
    )
}

/// Every coefficient multiplied by `c`.
pub open spec fn pscale(s: Seq<int>, c: int) -> Seq<int> {
    s.map(|i: int, v: int| fmod(c * v))
}

/// The coefficients of `x` times the polynomial: a zero pushed in front.
pub open spec fn shift1(s: Seq<int>) -> Seq<int> {
    seq![0int].add(s)
}

/// The convolution of two coefficient sequences: the coefficients of
/// the product polynomial, coefficient `k` being the reduced sum of
/// `a[i] * b[k - i]`.
pub open spec fn conv(a: Seq<int>, b: Seq<int>) -> Seq<int>
    decreases a.len(),
{
    if a.len() == 0 {
        Seq::empty()
    } else if a.len() == 1 {
        pscale(b, a[0])
    } else {
        padd(pscale(b, a[0]), shift1(conv(a.subrange(1, a.len() as int), b)))
    }
}

/// The product of polynomials of lengths `n` and `m` has length
/// `n + m - 1`.
pub proof fn lemma_conv_len(a: Seq<int>, b: Seq<int>)
    requires
        a.len() >= 1,
        b.len() >= 1,
    ensures
        conv(a, b).len() == a.len() + b.len() - 1,
    decreases a.len(),
{
    if a.len() > 1 {
        lemma_conv_len(a.subrange(1, a.len() as int), b);
    }
}

/// The quotient of `c` divided by the monic linear factor `x - z`:
/// quotient coefficient `i` is the numerator's tail past `i` evaluated
/// at `z`, which is what synthetic division computes.
pub open spec fn lin_quotient(c: Seq<int>, z: int) -> Seq<int> {
    Seq::new(
        if c.len() >= 1 {
            (c.len() - 1) as nat
        } else {
            0
        },
        |i: int| peval(c.subrange(i + 1, c.len() as int), z),
    )
}

/// The division identity behind synthetic division by `x - z`: for
/// every `x`, the numerator's value is the quotient's value times
/// `x - z`, plus the remainder — and the remainder is the numerator's
/// value at `z`.
pub proof fn lemma_division_identity(c: Seq<int>, z: int, x: int)
    requires
        c.len() >= 1,
    ensures
        peval(c, x) == fmod(peval(lin_quotient(c, z), x) * (x - z) + peval(c, z)),
    decreases c.len(),
{
    let q = lin_quotient(c, z);
    if c.len() == 1 {
        assert(q.len() == 0);
        assert(peval(q, x) == 0);
        assert(c.subrange(1, c.len() as int).len() == 0);
        assert(peval(c.subrange(1, c.len() as int), x) == 0);
        assert(peval(c.subrange(1, c.len() as int), z) == 0);
        assert(peval(c, x) == fmod(c[0] + x * 0));
        assert(peval(c, z) == fmod(c[0] + z * 0));
        assert(0 * (x - z) == 0) by (nonlinear_arith);
        lemma_fmod_idem(c[0]);
        assert(fmod(0 * (x - z) + peval(c, z)) == fmod(fmod(c[0])));
    } else {
        let c1 = c.subrange(1, c.len() as int);
        let q1 = lin_quotient(c1, z);
        let q0 = peval(c1, z);
        assert(q =~= seq![q0].add(q1)) by {
            assert forall|i: int| 0 <= i < q.len() implies q[i] == seq![q0].add(q1)[i] by {
                if i >= 1 {
                    assert(c1.subrange(i, c1.len() as int) =~= c.subrange(i + 1, c.len() as int));
                }
            }
        }
        lemma_division_identity(c1, z, x);
        let qx = peval(q1, x);
        let r0 = peval(c1, z);
        // peval(c1, x) == fmod(qx * (x - z) + r0)
        assert(q.subrange(1, q.len() as int) =~= q1);
        assert(q[0] == q0);
        assert(peval(q, x) == fmod(q0 + x * qx));
        assert(peval(c, x) == fmod(c[0] + x * peval(c1, x)));
        assert(peval(c, z) == fmod(c[0] + z * r0));
        // left side: fold the inner reduction away
        assert(fmod(x * peval(c1, x)) == fmod(x * (qx * (x - z) + r0))) by {
            lemma_fmod_mul_congruent(peval(c1, x), qx * (x - z) + r0, x);
            lemma_fmod_idem(qx * (x - z) + r0);
        }
        lemma_fmod_add_congruent(x * peval(c1, x), x * (qx * (x - z) + r0), c[0]);
        assert(peval(c, x) == fmod(c[0] + x * (qx * (x - z) + r0)));
        // right side: fold both inner reductions away
        let target = fmod(peval(q, x) * (x - z) + peval(c, z));
        assert(fmod(peval(q, x) * (x - z)) == fmod((q0 + x * qx) * (x - z))) by {
            lemma_fmod_mul_congruent(q0 + x * qx, peval(q, x), x - z);
            lemma_fmod_idem(q0 + x * qx);
        }
        assert(target == fmod((q0 + x * qx) * (x - z) + peval(c, z))) by {
            lemma_fmod_add_congruent(peval(q, x) * (x - z), (q0 + x * qx) * (x - z), peval(c, z));
        }
        assert(target == fmod((q0 + x * qx) * (x - z) + (c[0] + z * r0))) by {
            lemma_fmod_add_congruent(c[0] + z * r0, peval(c, z), (q0 + x * qx) * (x - z));
            lemma_fmod_idem(c[0] + z * r0);
        }
        assert((q0 + x * qx) * (x - z) + (c[0] + z * r0) == c[0] + x * (qx * (x - z) + r0)) by {
            assert(q0 == r0);
            assert((q0 + x * qx) * (x - z) == q0 * (x - z) + (x * qx) * (x - z))
                by (nonlinear_arith);
            assert(q0 * (x - z) == q0 * x - q0 * z) by (nonlinear_arith);
            assert(x * (qx * (x - z) + r0) == x * (qx * (x - z)) + x * r0) by (nonlinear_arith);
            assert((x * qx) * (x - z) == x * (qx * (x - z))) by (nonlinear_arith);
        }
    }
}

/// A reduced sum of coefficient-by-base products: the value that a
/// multi-scalar multiplication stands for.
pub open spec fn msm(c: Seq<int>, b: Seq<int>) -> int
    decreases c.len(),
{
    if c.len() == 0 || b.len() == 0 {
        0
    } else {
        fmod(
            c[0] * b[0] + msm(
                c.subrange(1, c.len() as int),
                b.subrange(1, b.len() as int),
            ),
        )
    }
}

/// Against bases that are `k` times the successive powers of `s`, a
/// multi-scalar multiplication is `k` times the polynomial's value at
/// `s`: committing evaluates the polynomial at the secret, in the
/// exponent.
pub proof fn lemma_msm_geometric(c: Seq<int>, b: Seq<int>, s: int, k: int)
    requires
        b.len() >= c.len(),
        forall|j: int| 0 <= j < c.len() ==> b[j] == fmod(k * pow(s, j as nat)),
    ensures
        msm(c, b) == fmod(k * peval(c, s)),
    decreases c.len(),
{
    reveal(pow);
    if c.len() == 0 {
        lemma_fmod_small(0);
        assert(fmod(k * 0) == 0);
    } else {
        let c1 = c.subrange(1, c.len() as int);
        let b1 = b.subrange(1, b.len() as int);
        assert forall|j: int| 0 <= j < c1.len() implies b1[j] == fmod((k * s) * pow(s, j as nat)) by {
            assert(b1[j] == b[j + 1]);
            assert(pow(s, (j + 1) as nat) == s * pow(s, j as nat));
            assert(k * (s * pow(s, j as nat)) == (k * s) * pow(s, j as nat)) by (nonlinear_arith);
        }
        lemma_msm_geometric(c1, b1, s, k * s);
        // msm(c, b) == fmod(c[0] * b[0] + msm(c1, b1))
        assert(b[0] == fmod(k * pow(s, 0nat)));
        assert(pow(s, 0nat) == 1);
        assert(msm(c, b) == fmod(c[0] * fmod(k) + msm(c1, b1)));
        assert(fmod(c[0] * fmod(k)) == fmod(c[0] * k)) by {
            lemma_fmod_mul_noop(c[0] + 0, k);
            lemma_fmod_mul_congruent(fmod(k), k, c[0]);
            lemma_fmod_idem(k);
            assert(c[0] * fmod(k) == fmod(k) * c[0]) by (nonlinear_arith);
            assert(c[0] * k == k * c[0]) by (nonlinear_arith);
            lemma_fmod_mul_congruent(fmod(k), k, c[0]);
        }
        lemma_fmod_add_congruent(c[0] * fmod(k), c[0] * k, msm(c1, b1));
        assert(msm(c, b) == fmod(c[0] * k + msm(c1, b1)));
        lemma_fmod_add_congruent(msm(c1, b1), (k * s) * peval(c1, s), c[0] * k);
        lemma_fmod_idem((k * s) * peval(c1, s));
        assert(msm(c, b) == fmod(c[0] * k + (k * s) * peval(c1, s)));
        assert(c[0] * k + (k * s) * peval(c1, s) == k * (c[0] + s * peval(c1, s)))
            by (nonlinear_arith);
        assert(fmod(k * fmod(c[0] + s * peval(c1, s))) == fmod(k * (c[0] + s * peval(c1, s)))) by {
            lemma_fmod_mul_noop(k, c[0] + s * peval(c1, s));
        }
        assert(peval(c, s) == fmod(c[0] + s * peval(c1, s)));
    }
}

/// A polynomial's value is always a canonical residue: zero, or a
/// reduced sum.
pub proof fn lemma_peval_range(c: Seq<int>, x: int)
    ensures
        0 <= peval(c, x) < fr_order(),
{
    if c.len() == 0 {
    } else {
        lemma_fmod_bound(c[0] + x * peval(c.subrange(1, c.len() as int), x));
    }
}

/// Reduction does not change a polynomial's value: it is already a
/// canonical residue.
pub proof fn lemma_peval_fmod(c: Seq<int>, x: int)
    ensures
        fmod(peval(c, x)) == peval(c, x),
{
    lemma_peval_range(c, x);
    lemma_fmod_small(peval(c, x));
}

/// The value of a scaled polynomial is the scaled value.
pub proof fn lemma_peval_pscale(s: Seq<int>, c: int, x: int)
    ensures
        peval(pscale(s, c), x) == fmod(c * peval(s, x)),
    decreases s.len(),
{
    if s.len() == 0 {
        lemma_fmod_small(0);
        assert(c * 0 == 0) by (nonlinear_arith);
    } else {
        let s1 = s.subrange(1, s.len() as int);
        lemma_peval_pscale(s1, c, x);
        let t = peval(s1, x);
        let p = pscale(s, c);
        assert(p.subrange(1, p.len() as int) =~= pscale(s1, c));
        assert(p[0] == fmod(c * s[0]));
        assert(peval(p, x) == fmod(fmod(c * s[0]) + x * fmod(c * t)));
        assert(fmod(fmod(c * s[0]) + x * fmod(c * t)) == fmod(c * s[0] + x * (c * t))) by {
            assert(fmod(x * fmod(c * t)) == fmod(x * (c * t))) by {
                lemma_fmod_mul_noop(x, c * t);
                lemma_fmod_idem(c * t);
                assert(fmod(x * fmod(c * t)) == fmod(x * (c * t))) by {
                    lemma_fmod_mul_congruent(fmod(c * t), c * t, x);
                    assert(x * fmod(c * t) == fmod(c * t) * x) by (nonlinear_arith);
                    assert(x * (c * t) == (c * t) * x) by (nonlinear_arith);
                }
            }
            lemma_fmod_add_congruent(x * fmod(c * t), x * (c * t), fmod(c * s[0]));
            lemma_fmod_add_congruent(fmod(c * s[0]), c * s[0], x * (c * t));
            lemma_fmod_idem(c * s[0]);
        }
        assert(fmod(c * peval(s, x)) == fmod(c * (s[0] + x * t))) by {
            lemma_fmod_mul_congruent(fmod(s[0] + x * t), s[0] + x * t, c);
            lemma_fmod_idem(s[0] + x * t);
            assert(c * fmod(s[0] + x * t) == fmod(s[0] + x * t) * c) by (nonlinear_arith);
            assert(c * (s[0] + x * t) == (s[0] + x * t) * c) by (nonlinear_arith);
        }
        assert(c * (s[0] + x * t) == c * s[0] + x * (c * t)) by (nonlinear_arith);
    }
}

/// The value of a shifted polynomial is `x` times the value.
pub proof fn lemma_peval_shift1(s: Seq<int>, x: int)
    ensures
        peval(shift1(s), x) == fmod(x * peval(s, x)),
{
    let p = shift1(s);
    assert(p[0] == 0);
    assert(p.subrange(1, p.len() as int) =~= s);
    assert(peval(p, x) == fmod(0 + x * peval(s, x)));
}

/// The value of a coefficient-wise difference is the difference of the
/// values.
pub proof fn lemma_peval_psub(a: Seq<int>, b: Seq<int>, x: int)
    ensures
        peval(psub(a, b), x) == fmod(peval(a, x) - peval(b, x)),
    decreases a.len() + b.len(),
{
    let p = psub(a, b);
    if a.len() == 0 && b.len() == 0 {
        assert(p.len() == 0);
        lemma_fmod_small(0);
    } else {
        let ta = if a.len() >= 1 {
            a.subrange(1, a.len() as int)
        } else {
            Seq::<int>::empty()
        };
        let tb = if b.len() >= 1 {
            b.subrange(1, b.len() as int)
        } else {
            Seq::<int>::empty()
        };
        lemma_peval_psub(ta, tb, x);
        assert(p.subrange(1, p.len() as int) =~= psub(ta, tb));
        let pa = peval(a, x);
        let pb = peval(b, x);
        let ha = at_or_zero(a, 0);
        let hb = at_or_zero(b, 0);
        let t = peval(psub(ta, tb), x);
        assert(p[0] == fmod(ha - hb));
        assert(peval(p, x) == fmod(fmod(ha - hb) + x * t));
        // fold the reductions in the head and in the tail away
        assert(fmod(fmod(ha - hb) + x * t) == fmod(
            (ha - hb) + x * (peval(ta, x) - peval(tb, x)),
        )) by {
            assert(fmod(x * t) == fmod(x * (peval(ta, x) - peval(tb, x)))) by {
                lemma_fmod_mul_congruent(t, peval(ta, x) - peval(tb, x), x);
                lemma_fmod_idem(peval(ta, x) - peval(tb, x));
                assert(x * t == t * x) by (nonlinear_arith);
                assert(x * (peval(ta, x) - peval(tb, x)) == (peval(ta, x) - peval(tb, x)) * x)
                    by (nonlinear_arith);
            }
            lemma_fmod_add_congruent(x * t, x * (peval(ta, x) - peval(tb, x)), fmod(ha - hb));
            lemma_fmod_add_congruent(
                fmod(ha - hb),
                ha - hb,
                x * (peval(ta, x) - peval(tb, x)),
            );
            lemma_fmod_idem(ha - hb);
        }
        // the two evaluations unfold headwise, zero heads included
        assert(pa == fmod(ha + x * peval(ta, x)) || (a.len() == 0 && pa == 0));
        assert(pb == fmod(hb + x * peval(tb, x)) || (b.len() == 0 && pb == 0));
        assert(fmod(pa - pb) == fmod((ha + x * peval(ta, x)) - (hb + x * peval(tb, x)))) by {
            if a.len() == 0 {
                assert(ha == 0 && peval(ta, x) == 0);
                assert(ha + x * peval(ta, x) == x * 0 + 0);
                assert(x * 0 == 0) by (nonlinear_arith);
                lemma_fmod_small(0);
            }
            if b.len() == 0 {
                assert(hb == 0 && peval(tb, x) == 0);
                assert(hb + x * peval(tb, x) == x * 0 + 0);
                assert(x * 0 == 0) by (nonlinear_arith);
                lemma_fmod_small(0);
            }
            lemma_fmod_sub_noop(ha + x * peval(ta, x), hb + x * peval(tb, x));
            if a.len() >= 1 {
                assert(fmod(ha + x * peval(ta, x)) == pa);
            } else {
                assert(fmod(ha + x * peval(ta, x)) == fmod(0));
                lemma_fmod_small(0);
            }
            if b.len() >= 1 {
                assert(fmod(hb + x * peval(tb, x)) == pb);
            } else {
                assert(fmod(hb + x * peval(tb, x)) == fmod(0));
                lemma_fmod_small(0);
            }
            lemma_fmod_sub_noop(pa, pb);
            lemma_peval_fmod(a, x);
            lemma_peval_fmod(b, x);
        }
        assert((ha + x * peval(ta, x)) - (hb + x * peval(tb, x)) == (ha - hb) + x * (peval(
            ta,
            x,
        ) - peval(tb, x))) by (nonlinear_arith);
    }
}

/// The value of a product polynomial is the product of the values.
pub proof fn lemma_peval_conv(a: Seq<int>, b: Seq<int>, x: int)
    requires
        a.len() >= 1,
    ensures
        peval(conv(a, b), x) == fmod(peval(a, x) * peval(b, x)),
    decreases a.len(),
{
    let pb = peval(b, x);
    if a.len() == 1 {
        lemma_peval_pscale(b, a[0], x);
        assert(peval(a, x) == fmod(a[0] + x * 0));
        assert(fmod(a[0] * pb) == fmod(peval(a, x) * pb)) by {
            lemma_fmod_mul_congruent(a[0], fmod(a[0]), pb);
            lemma_fmod_idem(a[0]);
            assert(fmod(a[0] + x * 0) == fmod(a[0]));
        }
    } else {
        let a1 = a.subrange(1, a.len() as int);
        lemma_peval_conv(a1, b, x);
        let u = pscale(b, a[0]);
        let v = shift1(conv(a1, b));
        assert(conv(a, b) == padd(u, v));
        lemma_peval_padd(u, v, x);
        lemma_peval_pscale(b, a[0], x);
        lemma_peval_shift1(conv(a1, b), x);
        let pa1 = peval(a1, x);
        // peval(conv(a, b), x) == fmod(fmod(a[0] * pb) + fmod(x * fmod(pa1 * pb)))
        assert(peval(conv(a, b), x) == fmod(a[0] * pb + x * (pa1 * pb))) by {
            assert(fmod(x * fmod(pa1 * pb)) == fmod(x * (pa1 * pb))) by {
                lemma_fmod_mul_congruent(fmod(pa1 * pb), pa1 * pb, x);
                lemma_fmod_idem(pa1 * pb);
                assert(x * fmod(pa1 * pb) == fmod(pa1 * pb) * x) by (nonlinear_arith);
                assert(x * (pa1 * pb) == (pa1 * pb) * x) by (nonlinear_arith);
            }
            lemma_fmod_add_congruent(fmod(a[0] * pb), a[0] * pb, fmod(x * fmod(pa1 * pb)));
            lemma_fmod_idem(a[0] * pb);
            lemma_fmod_add_congruent(
                fmod(x * fmod(pa1 * pb)),
                x * (pa1 * pb),
                a[0] * pb,
            );
        }
        assert(fmod(peval(a, x) * pb) == fmod((a[0] + x * pa1) * pb)) by {
            lemma_fmod_mul_congruent(fmod(a[0] + x * pa1), a[0] + x * pa1, pb);
            lemma_fmod_idem(a[0] + x * pa1);
            assert(peval(a, x) * pb == fmod(a[0] + x * pa1) * pb);
        }
        assert((a[0] + x * pa1) * pb == a[0] * pb + x * (pa1 * pb)) by (nonlinear_arith);
    }
}

/// The value of a coefficient-wise sum is the sum of the values.
pub proof fn lemma_peval_padd(a: Seq<int>, b: Seq<int>, x: int)
    ensures
        peval(padd(a, b), x) == fmod(peval(a, x) + peval(b, x)),
    decreases a.len() + b.len(),
{
    let p = padd(a, b);
    if a.len() == 0 && b.len() == 0 {
        assert(p.len() == 0);
        lemma_fmod_small(0);
    } else {
        let ta = if a.len() >= 1 {
            a.subrange(1, a.len() as int)
        } else {
            Seq::<int>::empty()
        };
        let tb = if b.len() >= 1 {
            b.subrange(1, b.len() as int)
        } else {
            Seq::<int>::empty()
        };
        lemma_peval_padd(ta, tb, x);
        assert(p.subrange(1, p.len() as int) =~= padd(ta, tb));
        let pa = peval(a, x);
        let pb = peval(b, x);
        let ha = at_or_zero(a, 0);
        let hb = at_or_zero(b, 0);
        let t = peval(padd(ta, tb), x);
        assert(p[0] == fmod(ha + hb));
        assert(peval(p, x) == fmod(fmod(ha + hb) + x * t));
        assert(fmod(fmod(ha + hb) + x * t) == fmod(
            (ha + hb) + x * (peval(ta, x) + peval(tb, x)),
        )) by {
            assert(fmod(x * t) == fmod(x * (peval(ta, x) + peval(tb, x)))) by {
                lemma_fmod_mul_congruent(t, peval(ta, x) + peval(tb, x), x);
                lemma_fmod_idem(peval(ta, x) + peval(tb, x));
                assert(x * t == t * x) by (nonlinear_arith);
                assert(x * (peval(ta, x) + peval(tb, x)) == (peval(ta, x) + peval(tb, x)) * x)
                    by (nonlinear_arith);
            }
            lemma_fmod_add_congruent(x * t, x * (peval(ta, x) + peval(tb, x)), fmod(ha + hb));
            lemma_fmod_add_congruent(
                fmod(ha + hb),
                ha + hb,
                x * (peval(ta, x) + peval(tb, x)),
            );
            lemma_fmod_idem(ha + hb);
        }
        assert(fmod(pa + pb) == fmod((ha + x * peval(ta, x)) + (hb + x * peval(tb, x)))) by {
            if a.len() == 0 {
                assert(ha == 0 && peval(ta, x) == 0);
                assert(x * 0 == 0) by (nonlinear_arith);
                lemma_fmod_small(0);
            }
            if b.len() == 0 {
                assert(hb == 0 && peval(tb, x) == 0);
                assert(x * 0 == 0) by (nonlinear_arith);
                lemma_fmod_small(0);
            }
            lemma_fmod_add_noop(ha + x * peval(ta, x), hb + x * peval(tb, x));
            if a.len() >= 1 {
                assert(fmod(ha + x * peval(ta, x)) == pa);
            } else {
                assert(fmod(ha + x * peval(ta, x)) == fmod(0));
                lemma_fmod_small(0);
            }
            if b.len() >= 1 {
                assert(fmod(hb + x * peval(tb, x)) == pb);
            } else {
                assert(fmod(hb + x * peval(tb, x)) == fmod(0));
                lemma_fmod_small(0);
            }
            lemma_fmod_add_noop(pa, pb);
            lemma_peval_fmod(a, x);
            lemma_peval_fmod(b, x);
        }
        assert((ha + x * peval(ta, x)) + (hb + x * peval(tb, x)) == (ha + hb) + x * (peval(
            ta,
            x,
        ) + peval(tb, x))) by (nonlinear_arith);
    }
}

/// The value of the linear factor `x - r` at `x`.
pub proof fn lemma_peval_lin_factor(r: int, x: int)
    ensures
        peval(lin_factor(r), x) == fmod(x - r),
{
    let p = lin_factor(r);
    assert(p.subrange(1, 2) =~= seq![1int]);
    assert(seq![1int].subrange(1, 1).len() == 0);
    assert(peval(seq![1int].subrange(1, 1), x) == 0);
    assert(peval(seq![1int], x) == fmod(1 + x * 0));
    lemma_fmod_small(1);
    assert(peval(p, x) == fmod(fmod(0 - r) + x * 1));
    assert(fmod(fmod(0 - r) + x) == fmod((0 - r) + x)) by {
        lemma_fmod_add_congruent(fmod(0 - r), 0 - r, x);
        lemma_fmod_idem(0 - r);
    }
}

/// Evaluation only depends on the evaluation point's residue.
pub proof fn lemma_peval_reduce_x(c: Seq<int>, x: int)
    ensures
        peval(c, fmod(x)) == peval(c, x),
    decreases c.len(),
{
    if c.len() > 0 {
        let c1 = c.subrange(1, c.len() as int);
        lemma_peval_reduce_x(c1, x);
        let t = peval(c1, x);
        assert(fmod(fmod(x) * t) == fmod(x * t)) by {
            lemma_fmod_mul_noop(x, t);
            lemma_fmod_idem(t);
        }
        lemma_fmod_add_congruent(fmod(x) * t, x * t, c[0]);
    }
}

/// The monic linear polynomial `x - r`, as coefficients `[-r, 1]`.
pub open spec fn lin_factor(r: int) -> Seq<int> {
    seq![fmod(0 - r), 1int]
}

/// The Lagrange basis numerator for index `skip`: the product of
/// `x - d[j]` over `j < jend`, `j != skip`, multiplied left to right.
pub open spec fn basis_num(d: Seq<int>, skip: int, jend: int) -> Seq<int>
    decreases jend,
{
    if jend <= 0 {
        seq![1int]
    } else if jend - 1 == skip {
        basis_num(d, skip, jend - 1)
    } else {
        conv(basis_num(d, skip, jend - 1), lin_factor(d[jend - 1]))
    }
}

/// The Lagrange basis denominator for index `skip`: the product of
/// `d[skip] - d[j]` over `j < jend`, `j != skip`.
pub open spec fn basis_den(d: Seq<int>, skip: int, jend: int) -> int
    decreases jend,
{
    if jend <= 0 {
        1
    } else if jend - 1 == skip {
        basis_den(d, skip, jend - 1)
    } else {
        fmod(basis_den(d, skip, jend - 1) * fmod(d[skip] - d[jend - 1]))
    }
}

/// The basis denominator is always a canonical residue.
pub proof fn lemma_basis_den_range(d: Seq<int>, skip: int, jend: int)
    ensures
        0 <= basis_den(d, skip, jend) < fr_order(),
    decreases jend,
{
    if jend <= 0 {
    } else {
        lemma_basis_den_range(d, skip, jend - 1);
        if jend - 1 != skip {
            lemma_fmod_bound(basis_den(d, skip, jend - 1) * fmod(d[skip] - d[jend - 1]));
        }
    }
}

/// The multiplicative inverse in the scalar field: the canonical
/// residue whose product with `a` reduces to one, or zero where none
/// exists.
pub open spec fn finv(a: int) -> int {
    if exists|b: int| 0 <= b < fr_order() && #[trigger] fmod(b * a) == 1 {
        choose|b: int| 0 <= b < fr_order() && #[trigger] fmod(b * a) == 1
    } else {
        0
    }
}

/// A multiplicative inverse is unique, so any witness is `finv`.
pub proof fn lemma_finv_unique(a: int, b: int)
    requires
        0 <= b < fr_order(),
        fmod(b * a) == 1,
    ensures
        finv(a) == b,
{
    assert(exists|bb: int| 0 <= bb < fr_order() && #[trigger] fmod(bb * a) == 1);
    let b2 = choose|bb: int| 0 <= bb < fr_order() && #[trigger] fmod(bb * a) == 1;
    assert(finv(a) == b2);
    assert(fmod(b * (a * b2)) == fmod(b2)) by {
        assert(b * (a * b2) == (b * a) * b2) by (nonlinear_arith);
        lemma_fmod_mul_noop(b * a, b2);
        assert(fmod(fmod(b * a) * b2) == fmod(1 * b2));
    }
    assert(fmod(b * (a * b2)) == fmod(b)) by {
        assert(b * (a * b2) == b * (b2 * a)) by (nonlinear_arith);
        assert(fmod(b * fmod(b2 * a)) == fmod(b * (b2 * a))) by {
            lemma_fmod_mul_congruent(fmod(b2 * a), b2 * a, b);
            lemma_fmod_idem(b2 * a);
            assert(b * fmod(b2 * a) == fmod(b2 * a) * b) by (nonlinear_arith);
            assert(b * (b2 * a) == (b2 * a) * b) by (nonlinear_arith);
        }
        assert(fmod(b * fmod(b2 * a)) == fmod(b * 1));
    }
    lemma_fmod_small(b);
    lemma_fmod_small(b2);
}

/// The Lagrange term for index `i`: the basis numerator scaled by the
/// value at `i` over the basis denominator.
pub open spec fn lag_term(v: Seq<int>, d: Seq<int>, i: int) -> Seq<int> {
    pscale(
        basis_num(d, i, d.len() as int),
        fmod(v[i] * finv(basis_den(d, i, d.len() as int))),
    )
}

/// The sum of the first `iend` Lagrange terms, starting from the zero
/// polynomial.
pub open spec fn lag_partial(v: Seq<int>, d: Seq<int>, iend: int) -> Seq<int>
    decreases iend,
{
    if iend <= 0 {
        seq![0int]
    } else {
        padd(lag_partial(v, d, iend - 1), lag_term(v, d, iend - 1))
    }
}

/// The Lagrange interpolation of `(d[i], v[i])`: the sum of all basis
/// terms.
pub open spec fn lagrange_spec(v: Seq<int>, d: Seq<int>) -> Seq<int> {
    lag_partial(v, d, v.len() as int)
}

/// Interpolation is defined exactly when no basis denominator
/// vanishes — that is, when no two domain points coincide.
pub open spec fn lagrange_defined(d: Seq<int>) -> bool {
    forall|i: int| 0 <= i < d.len() ==> basis_den(d, i, d.len() as int) != 0
}

/// The basis numerator multiplies one linear factor per index below
/// `jend`, except the skipped one.
pub proof fn lemma_basis_num_len(d: Seq<int>, skip: int, jend: int)
    requires
        0 <= skip,
        0 <= jend,
    ensures
        basis_num(d, skip, jend).len() == if jend <= skip {
            jend + 1
        } else {
            jend
        },
    decreases jend,
{
    if jend > 0 {
        lemma_basis_num_len(d, skip, jend - 1);
        if jend - 1 != skip {
            lemma_conv_len(basis_num(d, skip, jend - 1), lin_factor(d[jend - 1]));
        }
    }
}

/// Interpolating `n >= 1` points yields `n` coefficients.
pub proof fn lemma_lagrange_len(v: Seq<int>, d: Seq<int>, iend: int)
    requires
        v.len() == d.len(),
        0 <= iend <= v.len(),
    ensures
        lag_partial(v, d, iend).len() == if iend == 0 || d.len() == 0 {
            1
        } else {
            d.len()
        },
    decreases iend,
{
    if iend > 0 {
        lemma_lagrange_len(v, d, iend - 1);
        lemma_basis_num_len(d, iend - 1, d.len() as int);
        assert(lag_term(v, d, iend - 1).len() == d.len());
    }
}

/// Copies a scalar vector.
pub(crate) fn copy_scalars(v: &Vec<Fr>) -> (r: Vec<Fr>)
    ensures
        r@ == v@,
{
    let n = v.len();
    let mut out: Vec<Fr> = Vec::new();
    let mut i: usize = 0;
    while i < n
        invariant
            0 <= i <= n,
            n == v@.len(),
            out@.len() == i,
            forall|j: int| 0 <= j < i ==> out@[j] == v@[j],
        decreases n - i,
    {
        out.push(v[i]);
        i = i + 1;
    }
    proof {
        assert(out@ =~= v@);
    }
    out
}

/// Multiplies every coefficient by `c`.
fn scale_vec(v: &Vec<Fr>, c: &Fr) -> (r: Vec<Fr>)
    ensures
        vals_of(r@) == pscale(vals_of(v@), fmod(fr_val(*c))),
{
    let n = v.len();
    let mut out: Vec<Fr> = Vec::new();
    let mut i: usize = 0;
    while i < n
        invariant
            0 <= i <= n,
            n == v@.len(),
            out@.len() == i,
            forall|j: int|
                0 <= j < i ==> vals_of(out@)[j] == pscale(vals_of(v@), fmod(fr_val(*c)))[j],
        decreases n - i,
    {
        let prod = fr_mul(c, &v[i]);
        let ghost old_out = out@;
        out.push(prod);
        proof {
            lemma_fmod_mul_noop(fr_val(*c), fr_val(v@[i as int]));
            lemma_fmod_idem(fr_val(*c) * fr_val(v@[i as int]));
            assert(vals_of(out@)[i as int] == fmod(fmod(fr_val(*c)) * fmod(fr_val(v@[i as int]))));
            assert forall|j: int| 0 <= j < i + 1 implies vals_of(out@)[j] == pscale(
                vals_of(v@),
                fmod(fr_val(*c)),
            )[j] by {
                assert(vals_of(out@)[j] == fmod(fr_val(out@[j])));
                if j < i {
                    assert(out@[j] == old_out[j]);
                    assert(vals_of(old_out)[j] == fmod(fr_val(old_out[j])));
                } else {
                    assert(out@[j] == prod);
                }
            }
        }
        i = i + 1;
    }
    proof {
        assert(vals_of(out@) =~= pscale(vals_of(v@), fmod(fr_val(*c))));
    }
    out
}

/// A polynomial over the scalar field, lowest-degree coefficient first.
#[derive(Debug)]
pub struct Polynomial {
    pub coefficients: Vec<Fr>,
}

impl View for Polynomial {
    type V = Seq<int>;

    open spec fn view(&self) -> Seq<int> {
        vals_of(self.coefficients@)
    }
}

impl Clone for Polynomial {
    /// A copy that stands for the same coefficient sequence.
    fn clone(&self) -> (r: Self)
        ensures
            r@ == self@,
    {
        let mut copied: Vec<Fr> = Vec::new();
        let n = self.coefficients.len();
        let mut i: usize = 0;
        while i < n
            invariant
                0 <= i <= n,
                n == self.coefficients.len(),
                copied@.len() == i,
                forall|j: int| 0 <= j < i ==> copied@[j] == self.coefficients@[j],
            decreases n - i,
        {
            copied.push(self.coefficients[i]);
            i = i + 1;
        }
        let r = Polynomial { coefficients: copied };
        proof {
            assert(r@ =~= self@);
        }
        r
    }
}

impl Polynomial {
    /// Wraps a coefficient vector, index `i` holding the coefficient of
    /// `x^i`.
    pub fn new(coefficients: Vec<Fr>) -> (r: Self)
        ensures
            r@ == vals_of(coefficients@),
    {
        Self { coefficients }
    }

    /// A polynomial of `length` coefficients drawn at random.
    pub fn random(length: usize) -> (r: Self)
        ensures
            r@.len() == length,
    {
        let mut random_polynomial_coeff: Vec<Fr> = Vec::new();
        let mut i: usize = 0;
        while i < length
            invariant
                0 <= i <= length,
                random_polynomial_coeff@.len() == i,
            decreases length - i,
        {
            random_polynomial_coeff.push(fr_random());
            i = i + 1;
        }
        Self { coefficients: random_polynomial_coeff }
    }

    /// The coefficient-wise sum over the longer length, whichever
    /// operand that is.
    pub fn polynomial_addition(&self, rhs: Self) -> (r: Self)
        ensures
            r@ == padd(self@, rhs@),
    {
        let n = self.coefficients.len();
        let m = rhs.coefficients.len();
        let len = if n >= m {
            n
        } else {
            m
        };
        let mut out: Vec<Fr> = Vec::new();
        let mut i: usize = 0;
        while i < len
            invariant
                0 <= i <= len,
                n == self.coefficients@.len(),
                m == rhs.coefficients@.len(),
                len == if n >= m {
                    n
                } else {
                    m
                },
                out@.len() == i,
                forall|j: int| 0 <= j < i ==> vals_of(out@)[j] == padd(self@, rhs@)[j],
            decreases len - i,
        {
            let av = if i < n {
                self.coefficients[i]
            } else {
                fr_zero()
            };
            let bv = if i < m {
                rhs.coefficients[i]
            } else {
                fr_zero()
            };
            let sum = fr_add(&av, &bv);
            let ghost old_out = out@;
            out.push(sum);
            proof {
                lemma_fmod_add_noop(fr_val(av), fr_val(bv));
                lemma_fmod_idem(fr_val(av) + fr_val(bv));
                lemma_fmod_small(0);
                assert(fmod(fr_val(sum)) == fmod(
                    at_or_zero(self@, i as int) + at_or_zero(rhs@, i as int),
                ));
                assert forall|j: int| 0 <= j < i + 1 implies vals_of(out@)[j] == padd(
                    self@,
                    rhs@,
                )[j] by {
                    assert(vals_of(out@)[j] == fmod(fr_val(out@[j])));
                    if j < i {
                        assert(out@[j] == old_out[j]);
                        assert(vals_of(old_out)[j] == fmod(fr_val(old_out[j])));
                    } else {
                        assert(out@[j] == sum);
                    }
                }
            }
            i = i + 1;
        }
        proof {
            assert(vals_of(out@) =~= padd(self@, rhs@));
        }
        Polynomial { coefficients: out }
    }

    /// The coefficient-wise difference over the longer length, the
    /// missing high coefficients of either operand read as zero.
    pub fn polynomial_subtraction(&self, rhs: Self) -> (r: Self)
        ensures
            r@ == psub(self@, rhs@),
    {
        let n = self.coefficients.len();
        let m = rhs.coefficients.len();
        let len = if n >= m {
            n
        } else {
            m
        };
        let mut out: Vec<Fr> = Vec::new();
        let mut i: usize = 0;
        while i < len
            invariant
                0 <= i <= len,
                n == self.coefficients@.len(),
                m == rhs.coefficients@.len(),
                len == if n >= m {
                    n
                } else {
                    m
                },
                out@.len() == i,
                forall|j: int| 0 <= j < i ==> vals_of(out@)[j] == psub(self@, rhs@)[j],
            decreases len - i,
        {
            let av = if i < n {
                self.coefficients[i]
            } else {
                fr_zero()
            };
            let bv = if i < m {
                rhs.coefficients[i]
            } else {
                fr_zero()
            };
            let diff = fr_sub(&av, &bv);
            let ghost old_out = out@;
            out.push(diff);
            proof {
                lemma_fmod_sub_noop(fr_val(av), fr_val(bv));
                lemma_fmod_idem(fr_val(av) - fr_val(bv));
                lemma_fmod_small(0);
                assert(fmod(fr_val(diff)) == fmod(
                    at_or_zero(self@, i as int) - at_or_zero(rhs@, i as int),
                ));
                assert forall|j: int| 0 <= j < i + 1 implies vals_of(out@)[j] == psub(
                    self@,
                    rhs@,
                )[j] by {
                    assert(vals_of(out@)[j] == fmod(fr_val(out@[j])));
                    if j < i {
                        assert(out@[j] == old_out[j]);
                        assert(vals_of(old_out)[j] == fmod(fr_val(old_out[j])));
                    } else {
                        assert(out@[j] == diff);
                    }
                }
            }
            i = i + 1;
        }
        proof {
            assert(vals_of(out@) =~= psub(self@, rhs@));
        }
        Polynomial { coefficients: out }
    }

    /// The product polynomial: the convolution of the two coefficient
    /// sequences.
    pub fn polynomial_multiplication(&self, rhs: Self) -> (r: Self)
        requires
            self@.len() >= 1,
            rhs@.len() >= 1,
        ensures
            r@ == conv(self@, rhs@),
    {
        let n = self.coefficients.len();
        let mut i = n - 1;
        let mut acc = Polynomial {
            coefficients: scale_vec(&rhs.coefficients, &self.coefficients[i]),
        };
        proof {
            let suffix = self@.subrange(i as int, n as int);
            assert(suffix.len() == 1);
            assert(suffix[0] == self@[i as int]);
            assert(acc@ == pscale(rhs@, self@[i as int]));
        }
        while i > 0
            invariant
                0 <= i < n,
                n == self.coefficients@.len(),
                rhs@.len() >= 1,
                acc@ == conv(self@.subrange(i as int, n as int), rhs@),
            decreases i,
        {
            i = i - 1;
            let ghost old_acc_view = acc@;
            let scaled = scale_vec(&rhs.coefficients, &self.coefficients[i]);
            acc.coefficients.insert(0, fr_zero());
            proof {
                assert(vals_of(acc.coefficients@) =~= shift1(old_acc_view));
            }
            let scaled_poly = Polynomial { coefficients: scaled };
            acc = scaled_poly.polynomial_addition(acc);
            proof {
                let suffix = self@.subrange(i as int, n as int);
                assert(suffix.len() >= 2);
                assert(suffix[0] == self@[i as int]);
                assert(suffix.subrange(1, suffix.len() as int) =~= self@.subrange(
                    i + 1,
                    n as int,
                ));
                assert(acc@ == padd(
                    pscale(rhs@, self@[i as int]),
                    shift1(conv(self@.subrange(i + 1, n as int), rhs@)),
                ));
            }
        }
        proof {
            assert(self@.subrange(0, n as int) =~= self@);
        }
        acc
    }

    /// The quotient of dividing `self` by a monic linear divisor
    /// `[-z, 1]` (that is, `x - z`), by synthetic division. The
    /// remainder — the numerator's value at `z` — is dropped, as
    /// `lemma_division_identity` records; in protocol use the numerator
    /// is built to vanish at `z`, so the division is exact.
    pub fn long_division(&self, rhs: Self) -> (r: Result<Self, KzgError>)
        ensures
            r.is_ok() <==> self@.len() >= 1 && rhs@.len() == 2 && rhs@[1] == 1,
            r matches Ok(q) ==> q@ == lin_quotient(self@, fmod(0 - rhs@[0])),
    {
        let n = self.coefficients.len();
        if n == 0 {
            return Err(KzgError::EmptyPolynomial);
        }
        if rhs.coefficients.len() != 2 {
            return Err(KzgError::LengthMismatch);
        }
        let one = fr_one();
        proof {
            lemma_fmod_small(1);
        }
        if !fr_eq(&rhs.coefficients[1], &one) {
            proof {
                lemma_fmod_idem(fr_val(rhs.coefficients@[1]));
            }
            return Err(KzgError::LengthMismatch);
        }
        proof {
            lemma_fmod_idem(fr_val(rhs.coefficients@[1]));
        }
        let zfr = fr_neg(&rhs.coefficients[0]);
        let ghost zv = fmod(0 - rhs@[0]);
        proof {
            lemma_fmod_sub_noop(0, fr_val(rhs.coefficients@[0]));
            assert(fr_val(zfr) == zv);
        }
        if n == 1 {
            let empty_coefficients: Vec<Fr> = Vec::new();
            let quotient = Polynomial { coefficients: empty_coefficients };
            proof {
                assert(quotient@ =~= lin_quotient(self@, zv));
            }
            return Ok(quotient);
        }
        let d = n - 1;
        let mut rev: Vec<Fr> = Vec::new();
        rev.push(self.coefficients[n - 1]);
        proof {
            lemma_fmod_idem(fr_val(self.coefficients@[n - 1]));
            let suffix = self@.subrange(n - 1, n as int);
            assert(suffix.len() == 1);
            assert(suffix[0] == self@[n - 1]);
            assert(suffix.subrange(1, suffix.len() as int).len() == 0);
            assert(peval(suffix.subrange(1, suffix.len() as int), zv) == 0);
            assert(peval(suffix, zv) == fmod(self@[n - 1] + zv * 0));
            assert(fmod(fr_val(rev@[0])) == peval(self@.subrange(n - 1, n as int), zv));
        }
        let mut k: usize = 1;
        while k < d
            invariant
                1 <= k <= d,
                d == n - 1,
                n == self.coefficients@.len(),
                n >= 2,
                rev@.len() == k,
                fr_val(zfr) == zv,
                forall|j: int|
                    0 <= j < k ==> fmod(fr_val(rev@[j])) == peval(
                        self@.subrange(n - 1 - j, n as int),
                        zv,
                    ),
            decreases d - k,
        {
            let t = fr_mul(&zfr, &rev[k - 1]);
            let sum = fr_add(&self.coefficients[n - 1 - k], &t);
            let ghost old_rev = rev@;
            rev.push(sum);
            proof {
                let ghost prev = fmod(fr_val(old_rev[k - 1]));
                let suffix = self@.subrange(n - 1 - k, n as int);
                assert(suffix[0] == self@[n - 1 - k]);
                assert(suffix.subrange(1, suffix.len() as int) =~= self@.subrange(
                    n - 1 - (k - 1),
                    n as int,
                ));
                assert(peval(suffix, zv) == fmod(self@[n - 1 - k] + zv * prev));
                // fr_val(sum) == fmod(raw coefficient + fmod(zv * raw prev))
                assert(fmod(zv * fr_val(old_rev[k - 1])) == fmod(zv * prev)) by {
                    lemma_fmod_mul_noop(zv, fr_val(old_rev[k - 1]));
                    lemma_fmod_mul_noop(zv, prev);
                    lemma_fmod_idem(fr_val(old_rev[k - 1]));
                }
                assert(fmod(fr_val(sum)) == fmod(
                    fr_val(self.coefficients@[n - 1 - k]) + fmod(zv * prev),
                )) by {
                    lemma_fmod_idem(
                        fr_val(self.coefficients@[n - 1 - k]) + fr_val(t),
                    );
                    lemma_fmod_add_congruent(
                        fmod(zv * fr_val(old_rev[k - 1])),
                        fmod(zv * prev),
                        fr_val(self.coefficients@[n - 1 - k]),
                    );
                }
                assert(fmod(fr_val(sum)) == peval(suffix, zv)) by {
                    lemma_fmod_add_noop(fr_val(self.coefficients@[n - 1 - k]), zv * prev);
                    lemma_fmod_add_noop(self@[n - 1 - k], zv * prev);
                    lemma_fmod_idem(fr_val(self.coefficients@[n - 1 - k]));
                    lemma_fmod_idem(zv * prev);
                }
                assert(forall|j: int| 0 <= j < k ==> rev@[j] == old_rev[j]);
            }
            k = k + 1;
        }
        let mut out: Vec<Fr> = Vec::new();
        let mut i: usize = 0;
        while i < d
            invariant
                0 <= i <= d,
                d == n - 1,
                n == self.coefficients@.len(),
                n >= 2,
                rev@.len() == d,
                out@.len() == i,
                forall|j: int|
                    0 <= j < d ==> fmod(fr_val(rev@[j])) == peval(
                        self@.subrange(n - 1 - j, n as int),
                        zv,
                    ),
                forall|j: int| 0 <= j < i ==> out@[j] == rev@[d - 1 - j],
            decreases d - i,
        {
            out.push(rev[d - 1 - i]);
            i = i + 1;
        }
        let quotient = Polynomial { coefficients: out };
        proof {
            assert forall|j: int| 0 <= j < d implies quotient@[j] == lin_quotient(self@, zv)[j] by {
                assert(quotient@[j] == fmod(fr_val(out@[j])));
                assert(out@[j] == rev@[d - 1 - j]);
                assert(fmod(fr_val(rev@[d - 1 - j])) == peval(
                    self@.subrange(n - 1 - (d - 1 - j), n as int),
                    zv,
                ));
                assert(n - 1 - (d - 1 - j) == j + 1);
            }
            assert(quotient@ =~= lin_quotient(self@, zv));
        }
        Ok(quotient)
    }

    /// The commitment of the polynomial against the `G1` powers of a
    /// reference string: the multi-scalar multiplication of the
    /// coefficients with the powers.
    pub fn commitment_g1(&self, srs_1: &Vec<G1Affine>) -> (r: Result<G1Affine, KzgError>)
        ensures
            r.is_ok() <==> self@.len() <= srs_1@.len(),
            r matches Ok(c) ==> g1_val(c) == msm(self@, g1_vals(srs_1@)),
    {
        let n = self.coefficients.len();
        let m = srs_1.len();
        if n > m {
            return Err(KzgError::SrsTooShort);
        }
        let mut acc = g1_identity();
        let mut i = n;
        proof {
            assert(self@.subrange(n as int, n as int).len() == 0);
        }
        while i > 0
            invariant
                0 <= i <= n,
                n <= m,
                n == self.coefficients@.len(),
                m == srs_1@.len(),
                g1_val(acc) == msm(
                    self@.subrange(i as int, n as int),
                    g1_vals(srs_1@).subrange(i as int, m as int),
                ),
            decreases i,
        {
            i = i - 1;
            let ghost prev = g1_val(acc);
            let term = g1_scale(&srs_1[i], &self.coefficients[i]);
            acc = g1_add(&term, &acc);
            proof {
                let cs = self@.subrange(i as int, n as int);
                let bs = g1_vals(srs_1@).subrange(i as int, m as int);
                assert(cs[0] == self@[i as int]);
                assert(bs[0] == g1_vals(srs_1@)[i as int]);
                assert(cs.subrange(1, cs.len() as int) =~= self@.subrange(i + 1, n as int));
                assert(bs.subrange(1, bs.len() as int) =~= g1_vals(srs_1@).subrange(
                    i + 1,
                    m as int,
                ));
                assert(msm(cs, bs) == fmod(cs[0] * bs[0] + prev));
                // g1_val(acc) == fmod(fmod(raw base * raw coeff) + prev)
                assert(fmod(g1_val(srs_1@[i as int]) * fr_val(self.coefficients@[i as int]))
                    == fmod(bs[0] * cs[0])) by {
                    lemma_fmod_mul_noop(
                        g1_val(srs_1@[i as int]),
                        fr_val(self.coefficients@[i as int]),
                    );
                }
                assert(g1_val(acc) == fmod(
                    fmod(bs[0] * cs[0]) + prev,
                )) by {
                    lemma_fmod_add_congruent(
                        fmod(g1_val(srs_1@[i as int]) * fr_val(self.coefficients@[i as int])),
                        fmod(bs[0] * cs[0]),
                        prev,
                    );
                }
                assert(g1_val(acc) == fmod(cs[0] * bs[0] + prev)) by {
                    lemma_fmod_add_noop(bs[0] * cs[0], prev);
                    lemma_fmod_idem(prev);
                    lemma_fmod_idem(bs[0] * cs[0]);
                    assert(bs[0] * cs[0] == cs[0] * bs[0]) by (nonlinear_arith);
                }
            }
        }
        proof {
            assert(self@.subrange(0, n as int) =~= self@);
            assert(g1_vals(srs_1@).subrange(0, m as int) =~= g1_vals(srs_1@));
        }
        Ok(acc)
    }

    /// The commitment of the polynomial against the `G2` powers of a
    /// reference string.
    pub fn commitment_g2(&self, srs_2: &Vec<G2Affine>) -> (r: Result<G2Affine, KzgError>)
        ensures
            r.is_ok() <==> self@.len() <= srs_2@.len(),
            r matches Ok(c) ==> g2_val(c) == msm(self@, g2_vals(srs_2@)),
    {
        let n = self.coefficients.len();
        let m = srs_2.len();
        if n > m {
            return Err(KzgError::SrsTooShort);
        }
        let mut acc = g2_identity();
        let mut i = n;
        proof {
            assert(self@.subrange(n as int, n as int).len() == 0);
        }
        while i > 0
            invariant
                0 <= i <= n,
                n <= m,
                n == self.coefficients@.len(),
                m == srs_2@.len(),
                g2_val(acc) == msm(
                    self@.subrange(i as int, n as int),
                    g2_vals(srs_2@).subrange(i as int, m as int),
                ),
            decreases i,
        {
            i = i - 1;
            let ghost prev = g2_val(acc);
            let term = g2_scale(&srs_2[i], &self.coefficients[i]);
            acc = g2_add(&term, &acc);
            proof {
                let cs = self@.subrange(i as int, n as int);
                let bs = g2_vals(srs_2@).subrange(i as int, m as int);
                assert(cs[0] == self@[i as int]);
                assert(bs[0] == g2_vals(srs_2@)[i as int]);
                assert(cs.subrange(1, cs.len() as int) =~= self@.subrange(i + 1, n as int));
                assert(bs.subrange(1, bs.len() as int) =~= g2_vals(srs_2@).subrange(
                    i + 1,
                    m as int,
                ));
                assert(msm(cs, bs) == fmod(cs[0] * bs[0] + prev));
                assert(fmod(g2_val(srs_2@[i as int]) * fr_val(self.coefficients@[i as int]))
                    == fmod(bs[0] * cs[0])) by {
                    lemma_fmod_mul_noop(
                        g2_val(srs_2@[i as int]),
                        fr_val(self.coefficients@[i as int]),
                    );
                }
                assert(g2_val(acc) == fmod(
                    fmod(bs[0] * cs[0]) + prev,
                )) by {
                    lemma_fmod_add_congruent(
                        fmod(g2_val(srs_2@[i as int]) * fr_val(self.coefficients@[i as int])),
                        fmod(bs[0] * cs[0]),
                        prev,
                    );
                }
                assert(g2_val(acc) == fmod(cs[0] * bs[0] + prev)) by {
                    lemma_fmod_add_noop(bs[0] * cs[0], prev);
                    lemma_fmod_idem(prev);
                    lemma_fmod_idem(bs[0] * cs[0]);
                    assert(bs[0] * cs[0] == cs[0] * bs[0]) by (nonlinear_arith);
                }
            }
        }
        proof {
            assert(self@.subrange(0, n as int) =~= self@);
            assert(g2_vals(srs_2@).subrange(0, m as int) =~= g2_vals(srs_2@));
        }
        Ok(acc)
    }

    /// Builds the unique polynomial of degree below `n` through the
    /// points `(domain[i], values[i])`, by summing the `n` scaled
    /// Lagrange basis polynomials. Fails when the lengths differ, or
    /// when two domain points coincide and a basis denominator has no
    /// inverse.
    pub fn lagrange(values: Vec<Fr>, domain: Vec<Fr>) -> (r: Result<Self, KzgError>)
        ensures
            r.is_ok() <==> values@.len() == domain@.len() && lagrange_defined(vals_of(domain@)),
            r matches Ok(p) ==> p@ == lagrange_spec(vals_of(values@), vals_of(domain@)),
    {
        let n = values.len();
        if domain.len() != n {
            return Err(KzgError::LengthMismatch);
        }
        let ghost dv = vals_of(domain@);
        let ghost vv = vals_of(values@);
        let mut zero_vec: Vec<Fr> = Vec::new();
        zero_vec.push(fr_zero());
        let mut lagrange_polynomial = Polynomial { coefficients: zero_vec };
        proof {
            lemma_fmod_small(0);
            assert(lagrange_polynomial@ =~= seq![0int]);
        }
        let mut i: usize = 0;
        while i < n
            invariant
                0 <= i <= n,
                n == values@.len(),
                n == domain@.len(),
                dv == vals_of(domain@),
                vv == vals_of(values@),
                lagrange_polynomial@ == lag_partial(vv, dv, i as int),
                forall|t: int| 0 <= t < i ==> basis_den(dv, t, n as int) != 0,
            decreases n - i,
        {
            let mut one_vec: Vec<Fr> = Vec::new();
            one_vec.push(fr_one());
            let mut mul_numerator = Polynomial { coefficients: one_vec };
            let mut mul_denominator = fr_one();
            proof {
                lemma_fmod_small(1);
                assert(mul_numerator@ =~= seq![1int]);
            }
            let mut j: usize = 0;
            while j < n
                invariant
                    0 <= j <= n,
                    i < n,
                    n == values@.len(),
                    n == domain@.len(),
                    dv == vals_of(domain@),
                    mul_numerator@ == basis_num(dv, i as int, j as int),
                    mul_numerator@.len() >= 1,
                    fr_val(mul_denominator) == basis_den(dv, i as int, j as int),
                decreases n - j,
            {
                if j != i {
                    let mut factor_vec: Vec<Fr> = Vec::new();
                    factor_vec.push(fr_neg(&domain[j]));
                    factor_vec.push(fr_one());
                    let factor = Polynomial { coefficients: factor_vec };
                    proof {
                        lemma_fmod_sub_noop(0, fr_val(domain@[j as int]));
                        lemma_fmod_small(1);
                        assert(factor@ =~= lin_factor(dv[j as int]));
                        lemma_conv_len(mul_numerator@, factor@);
                    }
                    let ghost old_den = fr_val(mul_denominator);
                    mul_numerator = mul_numerator.polynomial_multiplication(factor);
                    let diff = fr_sub(&domain[i], &domain[j]);
                    mul_denominator = fr_mul(&mul_denominator, &diff);
                    proof {
                        // the new denominator matches the basis_den step
                        lemma_fmod_sub_noop(
                            fr_val(domain@[i as int]),
                            fr_val(domain@[j as int]),
                        );
                        assert(fmod(fr_val(diff)) == fmod(dv[i as int] - dv[j as int])) by {
                            lemma_fmod_idem(
                                fr_val(domain@[i as int]) - fr_val(domain@[j as int]),
                            );
                        }
                        assert(fr_val(mul_denominator) == fmod(
                            old_den * fmod(dv[i as int] - dv[j as int]),
                        )) by {
                            lemma_fmod_mul_congruent(
                                fr_val(diff),
                                fmod(dv[i as int] - dv[j as int]),
                                old_den,
                            );
                            lemma_fmod_idem(fr_val(diff));
                            assert(old_den * fr_val(diff) == fr_val(diff) * old_den)
                                by (nonlinear_arith);
                            assert(old_den * fmod(dv[i as int] - dv[j as int]) == fmod(
                                dv[i as int] - dv[j as int],
                            ) * old_den) by (nonlinear_arith);
                        }
                    }
                }
                j = j + 1;
            }
            let inv_opt = fr_invert(&mul_denominator);
            match inv_opt {
                Option::None => {
                    proof {
                        lemma_basis_den_range(dv, i as int, n as int);
                        lemma_fmod_small(basis_den(dv, i as int, n as int));
                        assert(basis_den(dv, i as int, n as int) == 0);
                    }
                    return Err(KzgError::DuplicatePoint);
                },
                Option::Some(inv) => {
                    let scalar = fr_mul(&values[i], &inv);
                    let scaled = scale_vec(&mul_numerator.coefficients, &scalar);
                    let term = Polynomial { coefficients: scaled };
                    proof {
                        lemma_basis_den_range(dv, i as int, n as int);
                        lemma_fmod_small(basis_den(dv, i as int, n as int));
                        lemma_finv_unique(fr_val(mul_denominator), fr_val(inv));
                        assert(finv(basis_den(dv, i as int, n as int)) == fr_val(inv));
                        // the scaling factor matches the lag_term factor
                        assert(fmod(fr_val(scalar)) == fmod(
                            vv[i as int] * finv(basis_den(dv, i as int, n as int)),
                        )) by {
                            lemma_fmod_idem(fr_val(values@[i as int]) * fr_val(inv));
                            lemma_fmod_mul_noop(fr_val(values@[i as int]), fr_val(inv));
                            lemma_fmod_small(fr_val(inv));
                            assert(fmod(fmod(fr_val(values@[i as int])) * fmod(fr_val(inv)))
                                == fmod(fr_val(values@[i as int]) * fr_val(inv)));
                        }
                        assert(term@ == lag_term(vv, dv, i as int));
                    }
                    lagrange_polynomial = lagrange_polynomial.polynomial_addition(term);
                    proof {
                        assert(lagrange_polynomial@ == lag_partial(vv, dv, i + 1));
                    }
                },
            }
            i = i + 1;
        }
        Ok(lagrange_polynomial)
    }

    /// The value of the polynomial at `x`, by Horner's method.
    pub fn eval(&self, x: &Fr) -> (r: Fr)
        ensures
            fr_val(r) == peval(self@, fr_val(*x)),
    {
        let ghost xv = fr_val(*x);
        let n = self.coefficients.len();
        let mut acc = fr_zero();
        let mut i = n;
        while i > 0
            invariant
                0 <= i <= n,
                n == self.coefficients.len(),
                fr_val(acc) == peval(self@.subrange(i as int, n as int), xv),
                xv == fr_val(*x),
            decreases i,
        {
            i = i - 1;
            let ghost prev = fr_val(acc);
            let scaled = fr_mul(x, &acc);
            acc = fr_add(&self.coefficients[i], &scaled);
            proof {
                let tail = self@.subrange(i + 1, n as int);
                let whole = self@.subrange(i as int, n as int);
                assert(whole[0] == self@[i as int]);
                assert(whole.subrange(1, whole.len() as int) =~= tail);
                // fold away the inner reductions of the Horner step
                assert(fmod(fr_val(self.coefficients@[i as int]) + fmod(xv * prev)) == fmod(
                    fr_val(self.coefficients@[i as int]) + xv * prev,
                )) by {
                    lemma_fmod_add_noop(xv * prev, fr_val(self.coefficients@[i as int]));
                    assert(fmod(fmod(xv * prev) + fr_val(self.coefficients@[i as int])) == fmod(
                        xv * prev + fr_val(self.coefficients@[i as int]),
                    ));
                }
                assert(fmod(fr_val(self.coefficients@[i as int]) + xv * prev) == fmod(
                    whole[0] + xv * prev,
                )) by {
                    lemma_fmod_add_noop(fr_val(self.coefficients@[i as int]), xv * prev);
                }
            }
        }
        proof {
            assert(self@.subrange(0, n as int) =~= self@);
        }
        acc
    }
}

} // verus!
