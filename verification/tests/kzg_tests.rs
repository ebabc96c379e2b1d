//! End-to-end tests of the single-point protocol.
use halo2curves::bn256::Fr;
use halo2curves::ff::Field;
use rand::thread_rng;

use kzg::kzg::{prove, verify, Proof};
use kzg::kzg_variables::polynomial::Polynomial;
use kzg::kzg_variables::trusted_setup::trusted_setup_generator;
use kzg::KzgError;

#[test]
fn kzg_test() {
    // Constructing Structured Reference String that is suitable to the given polynomial
    let k = 123;
    let params = trusted_setup_generator(k);
    // Polynomial created from the circuit constraints
    let circuit_size = 42;
    let polynomial = Polynomial::random(circuit_size);

    // Generating challange known by both prover and the verifier
    let rng = &mut thread_rng();
    let challenge = Fr::random(rng);

    let proof = prove(polynomial, challenge, &params).unwrap();
    let res = verify(proof, challenge, &params).unwrap();

    assert!(res);
}

#[test]
fn round_trip_small_polynomial() {
    let params = trusted_setup_generator(8);
    let polynomial = Polynomial::new(vec![Fr::from(1u64), Fr::from(2u64), Fr::from(3u64)]);
    let challenge = Fr::from(5u64);
    let proof = prove(polynomial, challenge, &params).unwrap();
    assert!(verify(proof, challenge, &params).unwrap());
}

#[test]
fn proof_carries_true_evaluation() {
    let params = trusted_setup_generator(8);
    // p(x) = 1 + 2x + 3x^2, so p(5) = 86
    let polynomial = Polynomial::new(vec![Fr::from(1u64), Fr::from(2u64), Fr::from(3u64)]);
    let proof = prove(polynomial, Fr::from(5u64), &params).unwrap();
    match proof {
        Proof::Point { evaluation, .. } => assert_eq!(evaluation, Fr::from(86u64)),
        Proof::Batch { .. } => panic!("single-point prover returned a batch proof"),
    }
}

#[test]
fn tampered_evaluation_is_rejected() {
    let params = trusted_setup_generator(16);
    let polynomial = Polynomial::random(10);
    let rng = &mut thread_rng();
    let challenge = Fr::random(rng);
    let proof = prove(polynomial, challenge, &params).unwrap();
    let forged = match proof {
        Proof::Point { polynomial_commitment, quotient_commitment, evaluation } => Proof::Point {
            polynomial_commitment,
            quotient_commitment,
            evaluation: evaluation + Fr::ONE,
        },
        Proof::Batch { .. } => panic!("single-point prover returned a batch proof"),
    };
    assert!(!verify(forged, challenge, &params).unwrap());
}

#[test]
fn wrong_challenge_is_rejected() {
    let params = trusted_setup_generator(8);
    let polynomial = Polynomial::new(vec![Fr::from(7u64), Fr::from(1u64), Fr::from(4u64)]);
    let proof = prove(polynomial, Fr::from(3u64), &params).unwrap();
    assert!(!verify(proof, Fr::from(4u64), &params).unwrap());
}

#[test]
fn empty_polynomial_is_rejected() {
    let params = trusted_setup_generator(4);
    let empty = Polynomial::new(Vec::new());
    assert_eq!(
        prove(empty, Fr::from(3u64), &params).unwrap_err(),
        KzgError::EmptyPolynomial
    );
}

#[test]
fn short_srs_is_rejected_by_prover() {
    let params = trusted_setup_generator(2);
    let polynomial = Polynomial::new(vec![Fr::from(1u64), Fr::from(2u64), Fr::from(3u64)]);
    assert_eq!(
        prove(polynomial, Fr::from(3u64), &params).unwrap_err(),
        KzgError::SrsTooShort
    );
}

#[test]
fn short_srs_is_rejected_by_verifier() {
    let params = trusted_setup_generator(4);
    let polynomial = Polynomial::new(vec![Fr::from(1u64), Fr::from(2u64)]);
    let proof = prove(polynomial, Fr::from(3u64), &params).unwrap();
    let short = trusted_setup_generator(1);
    assert_eq!(
        verify(proof, Fr::from(3u64), &short).unwrap_err(),
        KzgError::SrsTooShort
    );
}

#[test]
fn batch_proof_is_rejected_by_point_verifier() {
    let params = trusted_setup_generator(4);
    let polynomial = Polynomial::new(vec![Fr::from(1u64), Fr::from(2u64)]);
    let proof = prove(polynomial, Fr::from(3u64), &params).unwrap();
    let reshaped = match proof {
        Proof::Point { polynomial_commitment, quotient_commitment, .. } => Proof::Batch {
            polynomial_commitment,
            quotient_commitment,
        },
        Proof::Batch { .. } => panic!("single-point prover returned a batch proof"),
    };
    assert_eq!(
        verify(reshaped, Fr::from(3u64), &params).unwrap_err(),
        KzgError::WrongProofKind
    );
}
