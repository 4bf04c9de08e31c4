use sumcheck::{Monomial, MultivariateEvaluation, Polynomial, Scalar, TermEvaluation};

#[test]
fn test_selected_evaluation_full_points() {
    // Example monomial: x_1^2 * x_2^3
    let term = Monomial::new(vec![(1, 2), (2, 3)]);
    let points: Vec<Option<Scalar>> = vec![
        Some(Scalar::from_u64(1)), // Corresponds to x_0 (which isn't used in this term)
        Some(Scalar::from_u64(2)), // Corresponds to x_1, where power is 2
        Some(Scalar::from_u64(3)), // Corresponds to x_2, where power is 3
    ];

    // Evaluate the term at the given points
    let (result_scalar, result_term) = term.selected_evaluation(&points);

    // Print intermediate results
    println!("Result scalar: {:?}", result_scalar);
    println!("Result term: {:?}", result_term);

    // Manually calculate the expected result: 2^2 * 3^3 in the field
    let expected_scalar_2_pow_2 = Scalar::from_u64(4);
    let expected_scalar_3_pow_3 = Scalar::from_u64(27);
    let expected_scalar = Scalar::from_u64(4 * 27);

    println!("Expected scalar (2^2): {:?}", expected_scalar_2_pow_2);
    println!("Expected scalar (3^3): {:?}", expected_scalar_3_pow_3);
    println!("Combined expected scalar (2^2 * 3^3): {:?}", expected_scalar);

    let expected_term = Monomial::new(vec![]); // No remaining term

    // Assert the scalar matches expected value
    assert_eq!(result_scalar, expected_scalar, "Scalar mismatch");
    assert_eq!(result_term, expected_term, "Term mismatch");
}

#[test]
fn test_selected_evaluation_partial_points() {
    // Example monomial: x_1^2 * x_2^3
    let term = Monomial::new(vec![(1, 2), (2, 3)]);
    let points: Vec<Option<Scalar>> = vec![Some(Scalar::from_u64(1)), None, Some(Scalar::from_u64(3))];

    // Evaluate the term at the given points
    let (result_scalar, result_term) = term.selected_evaluation(&points);

    // Expected result: (1^2 * 3^3, x_1^2)
    let expected_scalar = Scalar::from_u64(27); // 1^2 * 3^3
    let expected_term = Monomial::new(vec![(1, 2)]); // Remaining term with variable 1

    assert_eq!(result_scalar, expected_scalar);
    assert_eq!(result_term, expected_term);
}

#[test]
fn test_selected_evaluation_no_points() {
    // Example monomial: x_1^2 * x_2^3
    let term = Monomial::new(vec![(1, 2), (2, 3)]);
    let points: Vec<Option<Scalar>> = vec![None, None, None];

    // Evaluate the term at the given points
    let (result_scalar, result_term) = term.selected_evaluation(&points);

    // Expected result: (1, x_1^2 * x_2^3)
    let expected_scalar = Scalar::one(); // No points were evaluated, so scalar is 1
    let expected_term = Monomial::new(vec![(1, 2), (2, 3)]); // The full term remains

    assert_eq!(result_scalar, expected_scalar);
    assert_eq!(result_term, expected_term);
}

#[test]
fn test_selected_evaluation_annihilation() {
    // A zero fixed at any variable present in the monomial annihilates the
    // whole term, whatever the other points hold.
    let term = Monomial::new(vec![(1, 2), (2, 3)]);
    let points: Vec<Option<Scalar>> = vec![None, Some(Scalar::zero()), Some(Scalar::from_u64(5))];

    let (result_scalar, result_term) = term.selected_evaluation(&points);

    assert_eq!(result_scalar, Scalar::zero());
    assert_eq!(result_term, Monomial::new(vec![]));

    // The same with the zero at the other variable.
    let points2: Vec<Option<Scalar>> = vec![Some(Scalar::from_u64(9)), Some(Scalar::from_u64(4)), Some(Scalar::zero())];
    let (s2, t2) = term.selected_evaluation(&points2);
    assert_eq!(s2, Scalar::zero());
    assert_eq!(t2, Monomial::new(vec![]));
}

#[test]
fn test_monomial_new_drops_zero_exponents() {
    let m = Monomial::new(vec![(0, 0), (1, 2)]);
    assert_eq!(m.pairs, vec![(1, 2)]);
}

#[test]
fn test_polynomial_new_combines_duplicates() {
    // 2*x_0 + 3*x_0 = 5*x_0
    let terms = vec![
        (Scalar::from_u64(2), Monomial::new(vec![(0, 1)])),
        (Scalar::from_u64(3), Monomial::new(vec![(0, 1)])),
    ];
    let poly = Polynomial::new(1, terms);
    assert_eq!(poly.terms.len(), 1);
    assert_eq!(poly.evaluate(&vec![Scalar::one()]), Scalar::from_u64(5));
}

#[test]
fn test_polynomial_selected_evaluation_zero_polynomial() {
    // The zero polynomial maps to itself unchanged.
    let poly = Polynomial::new(2, vec![]);
    let reduced = poly.selected_evaluation(&vec![Some(Scalar::from_u64(3)), None]);
    assert_eq!(reduced.num_vars, 2);
    assert!(reduced.terms.is_empty());
}
