use sumcheck::{Monomial, Polynomial, PolynomialCommitment, Scalar, SumCheckParams, SumCheckProof};

fn create_poly() -> Polynomial {
    // f(x1, x2, x3) = 3 + 2 * x1 + x2 x3 + x3
    Polynomial::new(
        3,
        vec![
            (Scalar::from_u64(3), Monomial::new(vec![])),
            (Scalar::from_u64(2), Monomial::new(vec![(0, 1)])),
            (Scalar::from_u64(1), Monomial::new(vec![(1, 1), (2, 1)])),
            (Scalar::from_u64(1), Monomial::new(vec![(2, 1)])),
        ],
    )
}

#[test]
fn test_protocol_claimed_sum() {
    // The claimed sum of f over {0,1}^3 is 38, and the proof verifies.
    let poly = create_poly();
    let sumcheck = SumCheckParams::default();
    let (sum, proof) = sumcheck.run_protocol((), &poly).unwrap();
    assert_eq!(sum, Scalar::from_u64(38));
    assert!(sumcheck.verify((), sum, 3, proof));
}

#[test]
fn test_proof_length_mismatch_rejected() {
    // A proof with fewer or more round polynomials than num_vars is
    // rejected, never a crash.
    let poly = create_poly();
    let sumcheck = SumCheckParams::default();

    let (sum, proof) = sumcheck.run_protocol((), &poly).unwrap();
    assert_eq!(proof.len(), 3);
    assert!(!proof.is_empty());
    assert!(!sumcheck.verify((), sum, 2, proof));

    let (sum2, proof2) = sumcheck.run_protocol((), &poly).unwrap();
    assert!(!sumcheck.verify((), sum2, 4, proof2));
}

#[test]
fn test_wrong_sum_rejected() {
    let poly = create_poly();
    let sumcheck = SumCheckParams::default();
    let (sum, proof) = sumcheck.run_protocol((), &poly).unwrap();
    assert_eq!(sum, Scalar::from_u64(38));
    assert!(!sumcheck.verify((), Scalar::from_u64(39), 3, proof));
}

#[test]
fn test_tampered_proof_rejected() {
    // Replacing a round polynomial breaks the replayed round consistency.
    let poly = create_poly();
    let sumcheck = SumCheckParams::default();
    let (sum, proof) = sumcheck.run_protocol((), &poly).unwrap();

    let bogus = Polynomial::new(
        3,
        vec![(Scalar::from_u64(11), Monomial::new(vec![(0, 1)]))],
    );
    let mut reduced = proof.reduced_polys;
    reduced[1] = PolynomialCommitment::commit(&bogus);
    let tampered = SumCheckProof { poly: proof.poly, reduced_polys: reduced };

    assert!(!sumcheck.verify((), sum, 3, tampered));
}

#[test]
fn test_variable_count_mismatch_rejected() {
    // Round polynomials declaring a different variable count are a shape
    // mismatch: rejected, never a crash.
    let narrow = Polynomial::new(2, vec![(Scalar::from_u64(1), Monomial::new(vec![(0, 1)]))]);
    let commitment = PolynomialCommitment::commit(&narrow);
    let proof = SumCheckProof {
        poly: PolynomialCommitment::commit(&narrow),
        reduced_polys: vec![
            PolynomialCommitment::commit(&narrow),
            PolynomialCommitment::commit(&narrow),
            commitment,
        ],
    };
    let sumcheck = SumCheckParams::default();
    assert!(!sumcheck.verify((), Scalar::from_u64(1), 3, proof));
}

#[test]
fn test_round_rejects_wrong_target() {
    // The prover's round self-check fails fast on an inconsistent target.
    let poly = create_poly();
    let sumcheck = SumCheckParams::default();
    assert!(sumcheck.round(Scalar::from_u64(37), &poly, 2, &vec![]).is_err());
    assert!(sumcheck.round(Scalar::from_u64(38), &poly, 2, &vec![]).is_ok());
}

#[test]
fn test_protocol_deterministic() {
    // Two runs on the same polynomial give identical sums and proofs.
    let poly = create_poly();
    let sumcheck = SumCheckParams::default();
    let (sum1, proof1) = sumcheck.run_protocol((), &poly).unwrap();
    let (sum2, proof2) = sumcheck.run_protocol((), &poly).unwrap();

    assert_eq!(sum1, sum2);
    assert_eq!(proof1.reduced_polys.len(), proof2.reduced_polys.len());
    assert_eq!(proof1.poly.0.num_vars, proof2.poly.0.num_vars);
    assert_eq!(proof1.poly.0.terms, proof2.poly.0.terms);
    for (a, b) in proof1
        .reduced_polys
        .iter()
        .zip(proof2.reduced_polys.iter())
    {
        assert_eq!(a.0.num_vars, b.0.num_vars);
        assert_eq!(a.0.terms, b.0.terms);
    }
}

#[test]
fn test_protocol_zero_variables() {
    // A constant polynomial: the sum is the constant, no rounds, accepted.
    let poly = Polynomial::new(0, vec![(Scalar::from_u64(5), Monomial::new(vec![]))]);
    let sumcheck = SumCheckParams::default();
    let (sum, proof) = sumcheck.run_protocol((), &poly).unwrap();
    assert_eq!(sum, Scalar::from_u64(5));
    assert_eq!(proof.len(), 0);
    assert!(sumcheck.verify((), sum, 0, proof));
}
