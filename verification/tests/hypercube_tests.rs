use sumcheck::{HyperCube, Scalar};

#[test]
fn test_hypercube_initialization() {
    let max_value = Scalar::from_u64(5);
    let hypercube = HyperCube::new(3, max_value);

    assert_eq!(hypercube.current, vec![Scalar::zero(); 3]);
    assert!(!hypercube.ended);
    assert_eq!(hypercube.max_value, max_value);
}

#[test]
fn test_hypercube_iteration() {
    let max_value = Scalar::from_u64(2);
    let mut hypercube = HyperCube::new(2, max_value);

    // First step should be [0, 0]
    assert_eq!(hypercube.next(), Some(vec![Scalar::zero(), Scalar::zero()]));

    // Next should be [1, 0]
    assert_eq!(hypercube.next(), Some(vec![Scalar::one(), Scalar::zero()]));

    // Next should be [2, 0]
    assert_eq!(hypercube.next(), Some(vec![Scalar::from_u64(2), Scalar::zero()]));

    // Next should be [0, 1]
    assert_eq!(hypercube.next(), Some(vec![Scalar::zero(), Scalar::one()]));

    // Next should be [1, 1]
    assert_eq!(hypercube.next(), Some(vec![Scalar::one(), Scalar::one()]));

    // Continue this pattern...
    assert_eq!(hypercube.next(), Some(vec![Scalar::from_u64(2), Scalar::one()]));
    assert_eq!(hypercube.next(), Some(vec![Scalar::zero(), Scalar::from_u64(2)]));
    assert_eq!(hypercube.next(), Some(vec![Scalar::one(), Scalar::from_u64(2)]));
    assert_eq!(hypercube.next(), Some(vec![Scalar::from_u64(2), Scalar::from_u64(2)]));

    // After reaching the max values, it should return None
    assert_eq!(hypercube.next(), None);
}

#[test]
fn test_hypercube_completed_iteration() {
    let max_value = Scalar::from_u64(1);
    let mut hypercube = HyperCube::new(1, max_value);

    // Expecting two iterations [0], [1], then None
    assert_eq!(hypercube.next(), Some(vec![Scalar::zero()]));
    assert_eq!(hypercube.next(), Some(vec![Scalar::one()]));
    assert_eq!(hypercube.next(), None);
}

#[test]
fn test_hypercube_zero_dimensions() {
    // {0,..,max}^0 holds exactly one point: the empty vector.
    let mut hypercube = HyperCube::new(0, Scalar::from_u64(3));
    assert_eq!(hypercube.next(), Some(vec![]));
    assert_eq!(hypercube.next(), None);
    assert_eq!(hypercube.next(), None);
}

#[test]
fn test_hypercube_cardinality() {
    // (max+1)^k points before exhaustion: 3^3 = 27.
    let mut hypercube = HyperCube::new(3, Scalar::from_u64(2));
    let mut count = 0usize;
    while let Some(point) = hypercube.next() {
        assert_eq!(point.len(), 3);
        count += 1;
    }
    assert_eq!(count, 27);
}
