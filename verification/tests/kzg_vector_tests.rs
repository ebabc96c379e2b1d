//! End-to-end tests of the multi-point (vector) protocol.
use halo2curves::bn256::Fr;
use halo2curves::ff::{Field, PrimeField};

use kzg::kzg::Proof;
use kzg::kzg_variables::trusted_setup::trusted_setup_generator;
use kzg::kzg_vector::{prove, verify};
use kzg::KzgError;

#[test]
fn kzg_vector_test() {
    // Constructing Structured Reference String that is suitable to the given polynomial
    let k = 123;
    let params = trusted_setup_generator(k);
    // Vector that is known to prover and verifier
    let vector = vec![
        Fr::ONE,
        Fr::ONE + Fr::ONE + Fr::ONE + Fr::ONE + Fr::ONE,
        Fr::ONE + Fr::ONE,
        Fr::ONE + Fr::ONE + Fr::ONE,
    ];

    // Creating vector indexes as challanges known by both prover and the verifier
    let challenge = vec![
        Fr::from_u128(0),
        Fr::from_u128(1),
        Fr::from_u128(2),
        Fr::from_u128(3),
    ];

    let domain = challenge.clone();
    let proof = prove(vector.clone(), domain.clone(), challenge.clone(), &params).unwrap();
    let res = verify(proof, vector, domain, challenge, &params).unwrap();

    assert!(res);
}

#[test]
fn batch_subset_of_domain_verifies() {
    let params = trusted_setup_generator(16);
    let vector = vec![
        Fr::from(1u64),
        Fr::from(5u64),
        Fr::from(2u64),
        Fr::from(3u64),
    ];
    let domain = vec![
        Fr::from(0u64),
        Fr::from(1u64),
        Fr::from(2u64),
        Fr::from(3u64),
    ];
    let challenges = vec![Fr::from(0u64), Fr::from(2u64)];
    let proof = prove(vector.clone(), domain.clone(), challenges.clone(), &params).unwrap();
    assert!(verify(proof, vector, domain, challenges, &params).unwrap());
}

#[test]
fn wrong_vector_is_rejected() {
    let params = trusted_setup_generator(16);
    let vector = vec![
        Fr::from(1u64),
        Fr::from(5u64),
        Fr::from(2u64),
        Fr::from(3u64),
    ];
    let domain = vec![
        Fr::from(0u64),
        Fr::from(1u64),
        Fr::from(2u64),
        Fr::from(3u64),
    ];
    let challenges = vec![Fr::from(0u64), Fr::from(2u64)];
    let proof = prove(vector.clone(), domain.clone(), challenges.clone(), &params).unwrap();
    // changing the vector at a challenged position invalidates the proof
    let mut tampered_vector = vector.clone();
    tampered_vector[2] = Fr::from(6u64);
    assert!(!verify(
        proof,
        tampered_vector,
        domain.clone(),
        challenges.clone(),
        &params
    )
    .unwrap());
    // changing it at an unchallenged position leaves the opened
    // sub-vector intact, so the proof still verifies
    let second_proof = prove(vector.clone(), domain.clone(), challenges.clone(), &params).unwrap();
    let mut untouched_positions = vector.clone();
    untouched_positions[1] = Fr::from(6u64);
    assert!(verify(second_proof, untouched_positions, domain, challenges, &params).unwrap());
}

#[test]
fn empty_vector_is_rejected() {
    let params = trusted_setup_generator(8);
    let empty: Vec<Fr> = Vec::new();
    assert_eq!(
        prove(empty.clone(), empty.clone(), empty, &params).unwrap_err(),
        KzgError::EmptyPolynomial
    );
}

#[test]
fn too_few_challenges_are_rejected() {
    let params = trusted_setup_generator(8);
    let vector = vec![Fr::from(1u64), Fr::from(5u64)];
    let domain = vec![Fr::from(0u64), Fr::from(1u64)];
    let challenges = vec![Fr::from(0u64)];
    assert_eq!(
        prove(vector, domain, challenges, &params).unwrap_err(),
        KzgError::TooFewChallenges
    );
}

#[test]
fn mismatched_lengths_are_rejected() {
    let params = trusted_setup_generator(8);
    let vector = vec![Fr::from(1u64), Fr::from(5u64), Fr::from(2u64)];
    let domain = vec![Fr::from(0u64), Fr::from(1u64)];
    let challenges = vec![Fr::from(0u64), Fr::from(1u64)];
    assert_eq!(
        prove(vector, domain, challenges, &params).unwrap_err(),
        KzgError::LengthMismatch
    );
}

#[test]
fn point_proof_is_rejected_by_batch_verifier() {
    let params = trusted_setup_generator(8);
    let vector = vec![Fr::from(1u64), Fr::from(5u64)];
    let domain = vec![Fr::from(0u64), Fr::from(1u64)];
    let challenges = vec![Fr::from(0u64), Fr::from(1u64)];
    let honest = prove(vector.clone(), domain.clone(), challenges.clone(), &params).unwrap();
    let reshaped = match honest {
        Proof::Batch { polynomial_commitment, quotient_commitment } => Proof::Point {
            polynomial_commitment,
            quotient_commitment,
            evaluation: Fr::ZERO,
        },
        Proof::Point { .. } => panic!("batch prover returned a point proof"),
    };
    assert_eq!(
        verify(reshaped, vector, domain, challenges, &params).unwrap_err(),
        KzgError::WrongProofKind
    );
}
