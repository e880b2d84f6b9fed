use recurrence::polynomial::{cluster_eigenvalues, Polynomial};
use recurrence::utilities::float_counts_within;

fn b(x: f64) -> u64 {
    x.to_bits()
}

fn bv(xs: &[f64]) -> Vec<u64> {
    xs.iter().map(|x| x.to_bits()).collect()
}

fn as_matrix(side: usize, elements: &[u64]) -> nalgebra::DMatrix<f64> {
    let floats: Vec<f64> = elements.iter().map(|e| f64::from_bits(*e)).collect();
    nalgebra::DMatrix::from_row_slice(side, side, &floats)
}

fn roots_of(polynomial: &Polynomial) -> Vec<(u64, usize)> {
    let side = polynomial.degree();
    let companion = as_matrix(side, &polynomial.companion_matrix());
    let schur = companion
        .try_schur(0.000000000000000001, 0)
        .unwrap()
        .unpack()
        .1;
    let eigenvalues: Vec<u64> = (0..side).map(|i| schur[(i, i)].to_bits()).collect();
    cluster_eigenvalues(&eigenvalues)
}

#[test]
fn polynomial_test_companion_matrix() {
    let polynomial1 = Polynomial::new(bv(&[-1.0, -1.0, 1.0]));
    let expected_companion_matrix1 = nalgebra::DMatrix::from_row_slice(2, 2, &[0.0, 1.0, 1.0, 1.0]);
    assert_eq!(as_matrix(2, &polynomial1.companion_matrix()), expected_companion_matrix1);

    let polynomial2 = Polynomial::new(bv(&[8.0, 12.0, 6.0, 1.0]));
    let expected_companion_matrix2 =
        nalgebra::DMatrix::from_row_slice(3, 3, &[0.0, 0.0, -8.0, 1.0, 0.0, -12.0, 0.0, 1.0, -6.0]);
    assert_eq!(as_matrix(3, &polynomial2.companion_matrix()), expected_companion_matrix2);
}

#[test]
fn polynomial_test_roots() {
    let polynomial1 = Polynomial::new(bv(&[-1.0, -1.0, 1.0]));
    let expected_roots1 = vec![(b(1.618_033_988_749_895), 1), (b(-0.618_033_988_749_894_9), 1)];
    assert!(float_counts_within(&roots_of(&polynomial1), &expected_roots1));

    let polynomial2 = Polynomial::new(bv(&[8.0, 12.0, 6.0, 1.0]));
    let expected_roots2 = vec![(b(-2.0), 3)];
    assert!(float_counts_within(&roots_of(&polynomial2), &expected_roots2));
}

#[test]
fn root_multiplicities_sum_to_degree() {
    for coefficients in [
        vec![-1.0, -1.0, 1.0],
        vec![8.0, 12.0, 6.0, 1.0],
        vec![3.24, 6.52, -5.1, -0.12, 1.0, 2.0],
    ] {
        let polynomial = Polynomial::new(bv(&coefficients));
        let roots = roots_of(&polynomial);
        let total: usize = roots.iter().map(|r| r.1).sum();
        assert_eq!(total, polynomial.degree());
    }
}

#[test]
fn evaluate_sums_powers() {
    // n^2 at 3: the coefficients are [0, 0, 1].
    let square = Polynomial::new(bv(&[0.0, 0.0, 1.0]));
    assert_eq!(square.evaluate(3), b(9.0));
    // 2 + 3n at 5.
    let line = Polynomial::new(bv(&[2.0, 3.0]));
    assert_eq!(line.evaluate(5), b(17.0));
    // A constant ignores its argument.
    let constant = Polynomial::new(bv(&[7.5]));
    assert_eq!(constant.evaluate(9), b(7.5));
}

#[test]
fn clustering_is_greedy_in_first_occurrence_order() {
    // Two close values join one cluster; a far one opens its own.
    let eigenvalues = bv(&[2.0, 2.0005, 3.0, 2.0009]);
    let clusters = cluster_eigenvalues(&eigenvalues);
    assert_eq!(clusters.len(), 2);
    assert_eq!(clusters[0], (b(2.0), 3));
    assert_eq!(clusters[1], (b(3.0), 1));
}

#[test]
fn clustering_nothing_yields_nothing() {
    assert_eq!(cluster_eigenvalues(&Vec::new()), Vec::new());
}

#[test]
fn degree_is_one_less_than_coefficient_count() {
    assert_eq!(Polynomial::new(bv(&[1.0])).degree(), 0);
    assert_eq!(Polynomial::new(bv(&[-1.0, -1.0, 1.0])).degree(), 2);
}
