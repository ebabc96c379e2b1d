//! Tests of the polynomial engine: interpolation, division, arithmetic,
//! and commitments.
use halo2curves::bn256::Fr;

use kzg::kzg_variables::polynomial::Polynomial;
use kzg::kzg_variables::trusted_setup::trusted_setup_generator;
use kzg::KzgError;

#[test]
fn lagrange_reproduces_the_values() {
    // domain [0, 1, 2, 3], values [1, 5, 2, 3]
    let domain = vec![
        Fr::from(0u64),
        Fr::from(1u64),
        Fr::from(2u64),
        Fr::from(3u64),
    ];
    let values = vec![
        Fr::from(1u64),
        Fr::from(5u64),
        Fr::from(2u64),
        Fr::from(3u64),
    ];
    let interpolated = Polynomial::lagrange(values.clone(), domain.clone()).unwrap();
    for i in 0..domain.len() {
        assert_eq!(interpolated.eval(&domain[i]), values[i]);
    }
}

#[test]
fn lagrange_rejects_a_repeated_point() {
    let domain = vec![Fr::from(1u64), Fr::from(1u64)];
    let values = vec![Fr::from(2u64), Fr::from(3u64)];
    assert_eq!(
        Polynomial::lagrange(values, domain).unwrap_err(),
        KzgError::DuplicatePoint
    );
}

#[test]
fn lagrange_rejects_mismatched_lengths() {
    let domain = vec![Fr::from(0u64), Fr::from(1u64)];
    let values = vec![Fr::from(2u64)];
    assert_eq!(
        Polynomial::lagrange(values, domain).unwrap_err(),
        KzgError::LengthMismatch
    );
}

#[test]
fn division_is_exact_on_a_factored_polynomial() {
    // (x - 2)(x - 3) = x^2 - 5x + 6, divided by (x - 2), is x - 3
    let numerator = Polynomial::new(vec![Fr::from(6u64), -Fr::from(5u64), Fr::from(1u64)]);
    let divisor = Polynomial::new(vec![-Fr::from(2u64), Fr::from(1u64)]);
    let quotient = numerator.long_division(divisor).unwrap();
    assert_eq!(quotient.coefficients.len(), 2);
    assert_eq!(quotient.coefficients[0], -Fr::from(3u64));
    assert_eq!(quotient.coefficients[1], Fr::from(1u64));
}

#[test]
fn division_rejects_a_divisor_of_the_wrong_shape() {
    let numerator = Polynomial::new(vec![Fr::from(6u64), Fr::from(1u64)]);
    let quadratic = Polynomial::new(vec![Fr::from(1u64), Fr::from(0u64), Fr::from(1u64)]);
    assert_eq!(
        numerator.long_division(quadratic).unwrap_err(),
        KzgError::LengthMismatch
    );
}

#[test]
fn evaluation_uses_ascending_powers() {
    // p(x) = 4 + 5x + 6x^2, p(2) = 38
    let p = Polynomial::new(vec![Fr::from(4u64), Fr::from(5u64), Fr::from(6u64)]);
    assert_eq!(p.eval(&Fr::from(2u64)), Fr::from(38u64));
}

#[test]
fn addition_handles_either_operand_longer() {
    let short = Polynomial::new(vec![Fr::from(1u64)]);
    let long = Polynomial::new(vec![Fr::from(2u64), Fr::from(3u64)]);
    let a = short.polynomial_addition(long.clone());
    assert_eq!(a.coefficients, vec![Fr::from(3u64), Fr::from(3u64)]);
    let b = long.polynomial_addition(Polynomial::new(vec![Fr::from(1u64)]));
    assert_eq!(b.coefficients, vec![Fr::from(3u64), Fr::from(3u64)]);
}

#[test]
fn subtraction_keeps_the_operand_order() {
    let minuend = Polynomial::new(vec![Fr::from(1u64)]);
    let subtrahend = Polynomial::new(vec![Fr::from(2u64), Fr::from(3u64)]);
    let difference = minuend.polynomial_subtraction(subtrahend);
    assert_eq!(difference.coefficients.len(), 2);
    assert_eq!(difference.coefficients[0], -Fr::from(1u64));
    assert_eq!(difference.coefficients[1], -Fr::from(3u64));
}

#[test]
fn multiplication_convolves_coefficients() {
    // (1 + 2x)(3 + x) = 3 + 7x + 2x^2
    let a = Polynomial::new(vec![Fr::from(1u64), Fr::from(2u64)]);
    let b = Polynomial::new(vec![Fr::from(3u64), Fr::from(1u64)]);
    let p = a.polynomial_multiplication(b);
    assert_eq!(
        p.coefficients,
        vec![Fr::from(3u64), Fr::from(7u64), Fr::from(2u64)]
    );
}

#[test]
fn commitment_of_monomials_picks_srs_entries() {
    let params = trusted_setup_generator(4);
    // committing to the constant 1 gives the first power, s^0 * G1
    let constant_one = Polynomial::new(vec![Fr::from(1u64)]);
    assert_eq!(
        constant_one.commitment_g1(&params.g1).unwrap(),
        params.g1[0]
    );
    // committing to x gives the second power, s^1 * G1
    let x = Polynomial::new(vec![Fr::from(0u64), Fr::from(1u64)]);
    assert_eq!(x.commitment_g1(&params.g1).unwrap(), params.g1[1]);
    assert_eq!(x.commitment_g2(&params.g2).unwrap(), params.g2[1]);
}

#[test]
fn commitment_rejects_a_short_srs() {
    let params = trusted_setup_generator(2);
    let p = Polynomial::new(vec![Fr::from(1u64), Fr::from(2u64), Fr::from(3u64)]);
    assert_eq!(
        p.commitment_g1(&params.g1).unwrap_err(),
        KzgError::SrsTooShort
    );
    assert_eq!(
        p.commitment_g2(&params.g2).unwrap_err(),
        KzgError::SrsTooShort
    );
}

#[test]
fn commitment_binding_over_random_secrets() {
    // two fixed, different polynomials of degree below the SRS length
    // must commit differently for every freshly drawn secret
    let p = vec![Fr::from(1u64), Fr::from(2u64), Fr::from(3u64)];
    let q = vec![Fr::from(1u64), Fr::from(2u64), Fr::from(4u64)];
    for _ in 0..20 {
        let params = trusted_setup_generator(8);
        let cp = Polynomial::new(p.clone())
            .commitment_g1(&params.g1)
            .unwrap();
        let cq = Polynomial::new(q.clone())
            .commitment_g1(&params.g1)
            .unwrap();
        assert_ne!(cp, cq);
    }
}

#[test]
fn random_polynomial_has_the_requested_length() {
    let p = Polynomial::random(7);
    assert_eq!(p.coefficients.len(), 7);
}
