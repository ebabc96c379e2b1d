//! The structured reference string: the powers of a secret scalar,
//! embedded in both curve groups. The secret — the "toxic waste" —
//! lives only inside the generator's scope and is never returned; all
//! that escapes is the statement that some secret exponent underlies
//! the two power sequences.
use vstd::arithmetic::power::pow;
use vstd::prelude::*;

use halo2curves::bn256::{G1Affine, G2Affine};

use crate::kzg_variables::curve::{
    fmod, fr_mul, fr_one, fr_order, fr_random, fr_val, g1_generator, g1_scale, g1_val, g2_generator,
    g2_scale, g2_val, lemma_fmod_idem, lemma_fmod_mul_noop, lemma_fmod_small,
};
use crate::kzg_variables::polynomial::{g1_vals, g2_vals};

verus! {

/// The public parameters: `g1[i]` and `g2[i]` hold the `i`-th power of
/// one shared secret scalar behind the respective group generator.
pub struct Params {
    pub g1: Vec<G1Affine>,
    pub g2: Vec<G2Affine>,
}

/// Both power sequences stand for the successive powers of the same
/// secret exponent `s`, starting at `s^0`.
pub open spec fn srs_wf(g1s: Seq<int>, g2s: Seq<int>, s: int) -> bool {
    &&& g1s.len() == g2s.len()
    &&& forall|i: int| 0 <= i < g1s.len() ==> g1s[i] == fmod(pow(s, i as nat))
    &&& forall|i: int| 0 <= i < g2s.len() ==> g2s[i] == fmod(pow(s, i as nat))
}

/// Draws one secret scalar and emits its successive powers in `G1` and
/// `G2`. The secret is dropped at the end of this scope; only the
/// existence of a common exponent is promised of the result.
pub fn trusted_setup_generator(length: usize) -> (r: Params)
    ensures
        r.g1@.len() == length,
        r.g2@.len() == length,
        exists|s: int| srs_wf(g1_vals(r.g1@), g2_vals(r.g2@), s),
{
    let generator_g1 = g1_generator();
    let generator_g2 = g2_generator();
    let toxic_waste = fr_random();
    let ghost s = fr_val(toxic_waste);
    let mut trusted_setup_g1: Vec<G1Affine> = Vec::new();
    let mut trusted_setup_g2: Vec<G2Affine> = Vec::new();
    let mut toxic_waste_powers = fr_one();
    proof {
        reveal(pow);
        lemma_fmod_small(1);
    }
    let mut i: usize = 0;
    while i < length
        invariant
            0 <= i <= length,
            trusted_setup_g1@.len() == i,
            trusted_setup_g2@.len() == i,
            s == fr_val(toxic_waste),
            0 <= s < fr_order(),
            g1_val(generator_g1) == 1,
            g2_val(generator_g2) == 1,
            fr_val(toxic_waste_powers) == fmod(pow(s, i as nat)),
            forall|j: int|
                0 <= j < i ==> g1_vals(trusted_setup_g1@)[j] == fmod(pow(s, j as nat)),
            forall|j: int|
                0 <= j < i ==> g2_vals(trusted_setup_g2@)[j] == fmod(pow(s, j as nat)),
        decreases length - i,
    {
        let power_g1 = g1_scale(&generator_g1, &toxic_waste_powers);
        let power_g2 = g2_scale(&generator_g2, &toxic_waste_powers);
        let ghost old_g1 = trusted_setup_g1@;
        let ghost old_g2 = trusted_setup_g2@;
        trusted_setup_g1.push(power_g1);
        trusted_setup_g2.push(power_g2);
        let ghost cur = fr_val(toxic_waste_powers);
        toxic_waste_powers = fr_mul(&toxic_waste_powers, &toxic_waste);
        proof {
            reveal(pow);
            lemma_fmod_idem(pow(s, i as nat));
            assert(g1_val(power_g1) == fmod(pow(s, i as nat)));
            assert(g2_val(power_g2) == fmod(pow(s, i as nat)));
            lemma_fmod_idem(g1_val(power_g1));
            lemma_fmod_idem(g2_val(power_g2));
            assert forall|j: int| 0 <= j < i + 1 implies g1_vals(trusted_setup_g1@)[j] == fmod(
                pow(s, j as nat),
            ) by {
                assert(g1_vals(trusted_setup_g1@)[j] == fmod(g1_val(trusted_setup_g1@[j])));
                if j < i {
                    assert(trusted_setup_g1@[j] == old_g1[j]);
                    assert(g1_vals(old_g1)[j] == fmod(g1_val(old_g1[j])));
                } else {
                    assert(trusted_setup_g1@[j] == power_g1);
                }
            }
            assert forall|j: int| 0 <= j < i + 1 implies g2_vals(trusted_setup_g2@)[j] == fmod(
                pow(s, j as nat),
            ) by {
                assert(g2_vals(trusted_setup_g2@)[j] == fmod(g2_val(trusted_setup_g2@[j])));
                if j < i {
                    assert(trusted_setup_g2@[j] == old_g2[j]);
                    assert(g2_vals(old_g2)[j] == fmod(g2_val(old_g2[j])));
                } else {
                    assert(trusted_setup_g2@[j] == power_g2);
                }
            }
            // the running power steps from s^i to s^(i + 1)
            assert(fr_val(toxic_waste_powers) == fmod(pow(s, (i + 1) as nat))) by {
                lemma_fmod_mul_noop(pow(s, i as nat), s);
                assert(fmod(cur * s) == fmod(fmod(pow(s, i as nat)) * s));
                lemma_fmod_small(s);
                assert(fmod(fmod(pow(s, i as nat)) * fmod(s)) == fmod(pow(s, i as nat) * s));
                assert(pow(s, (i + 1) as nat) == s * pow(s, i as nat));
                assert(pow(s, i as nat) * s == s * pow(s, i as nat)) by (nonlinear_arith);
            }
        }
        i = i + 1;
    }
    let r = Params { g1: trusted_setup_g1, g2: trusted_setup_g2 };
    proof {
        assert(srs_wf(g1_vals(r.g1@), g2_vals(r.g2@), s));
    }
    r
}

} // verus!
