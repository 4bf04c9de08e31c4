use sumcheck::{Monomial, Polynomial, Scalar, SumCheckParams};

fn create_poly() -> Polynomial {
    // f(x1, x2, x3) = 3 + 2 * x1 + x2 x3 + x3
    let num_vars = 3;
    let terms = vec![
        // 3
        (Scalar::from_u64(3), Monomial::new(vec![(0, 0)])),
        // 2 * x1
        (Scalar::from_u64(2), Monomial::new(vec![(0, 1)])),
        // x2 x3
        (Scalar::from_u64(1), Monomial::new(vec![(1, 1), (2, 1)])),
        // x3
        (Scalar::from_u64(1), Monomial::new(vec![(2, 1)])),
    ];
    Polynomial::new(num_vars, terms)
}

#[test]
fn test_multivariate_poly() {
    let poly = create_poly();

    // f(2, 1, 1) = 9
    let res = poly.evaluate(&vec![Scalar::from_u64(2), Scalar::one(), Scalar::one()]);
    assert_eq!(res, Scalar::from_u64(9));
}

#[test]
fn test_sumcheck_round_1() {
    // f(x1, x2, x3) = 3 + 2 * x1 + x2 x3 + x3
    let poly = create_poly();

    // f(0,0,0) + f(0,0,1) + f(0,1,0) + f(0,1,1) + ...
    let target = {
        let o = Scalar::zero();
        let i = Scalar::one();

        // f(0,0,0)
        assert_eq!(poly.evaluate(&vec![o, o, o]), Scalar::from_u64(3));
        let mut target = 3u64;

        // f(1,0,0) + f(0,1,0) + f(0,0,1)
        assert_eq!(poly.evaluate(&vec![i, o, o]), Scalar::from_u64(3 + 2));
        assert_eq!(poly.evaluate(&vec![o, i, o]), Scalar::from_u64(3));
        assert_eq!(poly.evaluate(&vec![o, o, i]), Scalar::from_u64(3 + 1));
        target += (3 + 2) + (3) + (3 + 1);

        // f(1,1,0) + f(0,1,1) + f(1,0,1)
        assert_eq!(poly.evaluate(&vec![i, i, o]), Scalar::from_u64(3 + 2));
        assert_eq!(poly.evaluate(&vec![o, i, i]), Scalar::from_u64(3 + 1 + 1));
        assert_eq!(poly.evaluate(&vec![i, o, i]), Scalar::from_u64(3 + 2 + 1));
        target += (3 + 2) + (3 + 1 + 1) + (3 + 2 + 1);

        // f(1,1,1)
        assert_eq!(poly.evaluate(&vec![i, i, i]), Scalar::from_u64(3 + 2 + 1 + 1));
        target + 3 + 2 + 1 + 1
    };

    let num = 2;
    let sumcheck: SumCheckParams = SumCheckParams::default();
    let res = sumcheck.round(Scalar::from_u64(target), &poly, num, &vec![]);
    assert!(res.is_ok());
}

#[test]
fn test_sumcheck_round_2() {
    // f(x1, x2, x3) = 3 + 2 * x1 + x2 x3 + x3
    let poly = create_poly();
    let alpha = 7u64; // challenge alpha

    let o = Scalar::zero();
    let i = Scalar::one();
    let a = Scalar::from_u64(alpha);

    // f(0,0,a) + f(0,0,a) + f(0,1,a) + f(0,1,a) + ...
    let target = {
        // f(0,0,a)
        assert_eq!(poly.evaluate(&vec![o, o, a]), Scalar::from_u64(3 + alpha));
        let mut target = 3 + alpha;

        // f(1,0,a) + f(0,1,a)
        assert_eq!(poly.evaluate(&vec![i, o, a]), Scalar::from_u64(3 + 2 + alpha));
        assert_eq!(poly.evaluate(&vec![o, i, a]), Scalar::from_u64(3 + alpha + alpha));
        target += (3 + 2 + alpha) + (3 + alpha + alpha);

        // f(1,1,a)
        assert_eq!(
            poly.evaluate(&vec![i, i, a]),
            Scalar::from_u64(3 + 2 + alpha + alpha)
        );
        target + 3 + 2 + alpha + alpha
    };

    let num = 1;
    let sumcheck: SumCheckParams = SumCheckParams::default();
    let res = sumcheck.round(Scalar::from_u64(target), &poly, num, &vec![a]);
    assert!(res.is_ok());
}

#[test]
fn test_sumcheck_protocol() {
    // f(x1, x2, x3) = 3 + 2 * x1 + x2 x3 + x3
    let poly = create_poly();

    let sumcheck: SumCheckParams = SumCheckParams::default();

    let (sum, proof) = sumcheck.run_protocol((), &poly).unwrap();

    let res = sumcheck.verify((), sum, poly.num_vars, proof);

    assert!(res);
}
