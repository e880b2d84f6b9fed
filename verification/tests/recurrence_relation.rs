use recurrence::polynomial::{cluster_eigenvalues, Polynomial};
use recurrence::recurrence_relation::{RecurrenceRelation, ShapeError};
use recurrence::recurrence_solution::RecurrenceSolution;
use recurrence::utilities::vec_within;

fn b(x: f64) -> u64 {
    x.to_bits()
}

fn bv(xs: &[f64]) -> Vec<u64> {
    xs.iter().map(|x| x.to_bits()).collect()
}

fn fv(bits: &[u64]) -> Vec<f64> {
    bits.iter().map(|e| f64::from_bits(*e)).collect()
}

fn solve(relation: &RecurrenceRelation) -> RecurrenceSolution {
    let characteristic = relation.characteristic_polynomial();
    let side = characteristic.degree();
    let companion = nalgebra::DMatrix::from_row_slice(side, side, &fv(
        &characteristic.companion_matrix(),
    ));
    let schur = companion
        .try_schur(0.000000000000000001, 0)
        .unwrap()
        .unpack()
        .1;
    let eigenvalues: Vec<u64> = (0..side).map(|i| schur[(i, i)].to_bits()).collect();
    let roots = cluster_eigenvalues(&eigenvalues);
    let matrix = nalgebra::DMatrix::from_row_slice(side, side, &fv(
        &relation.solution_system(&roots),
    ));
    let rhs = nalgebra::DMatrix::from_row_slice(side, 1, &fv(relation.base_cases()));
    let alphas_matrix = matrix.lu().solve(&rhs).expect("cant solve given linear system");
    let alphas: Vec<u64> = alphas_matrix.iter().map(|v| v.to_bits()).collect();
    relation.assemble_solution(&roots, &alphas)
}

#[test]
fn recurrence_relation_test_characteristic_polynomial() {
    let recurrence_relation1 = RecurrenceRelation::new(bv(&[0.0, 1.0]), bv(&[1.0, 1.0]));
    let characteristic_polynomial1 = Polynomial::new(bv(&[-1.0, -1.0, 1.0]));
    assert_eq!(
        recurrence_relation1.characteristic_polynomial(),
        characteristic_polynomial1
    );

    let recurrence_relation2 =
        RecurrenceRelation::new(bv(&[1.0, -2.0, 3.0]), bv(&[-6.0, -12.0, -8.0]));
    let characteristic_polynomial2 = Polynomial::new(bv(&[8.0, 12.0, 6.0, 1.0]));
    assert_eq!(
        recurrence_relation2.characteristic_polynomial(),
        characteristic_polynomial2
    );
}

#[test]
fn recurrence_relation_test_solve() {
    let recurrence_relation1 = RecurrenceRelation::new(bv(&[0.0, 1.0]), bv(&[1.0, 1.0]));
    assert!(vec_within(
        &solve(&recurrence_relation1).get_terms(10),
        &recurrence_relation1.get_terms(10)
    ));

    let recurrence_relation2 =
        RecurrenceRelation::new(bv(&[1.0, -2.0, 3.0]), bv(&[-6.0, -12.0, -8.0]));
    assert!(vec_within(
        &solve(&recurrence_relation2).get_terms(5),
        &recurrence_relation2.get_terms(5)
    ));
}

#[test]
fn recurrence_relation_test_get_terms() {
    let recurrence_relation1 = RecurrenceRelation::new(bv(&[0.0, 1.0]), bv(&[1.0, 1.0]));
    let terms1 = bv(&[0.0, 1.0, 1.0, 2.0, 3.0, 5.0, 8.0, 13.0, 21.0, 34.0]);
    assert_eq!(recurrence_relation1.get_terms(10), terms1);

    let recurrence_relation2 =
        RecurrenceRelation::new(bv(&[1.0, -2.0, 3.0]), bv(&[-6.0, -12.0, -8.0]));
    let terms2 = bv(&[
        1.0, -2.0, 3.0, -2.0, -8.0, 48.0, -176.0, 544.0, -1536.0, 4096.0,
    ]);
    assert_eq!(recurrence_relation2.get_terms(10), terms2);
}

#[test]
fn characteristic_polynomial_degree_matches_relation_degree() {
    let fibonacci = RecurrenceRelation::new(bv(&[0.0, 1.0]), bv(&[1.0, 1.0]));
    assert_eq!(fibonacci.characteristic_polynomial().degree(), fibonacci.degree());
    let mixed = RecurrenceRelation::new(bv(&[1.0, -2.0, 3.0]), bv(&[-6.0, -12.0, -8.0]));
    assert_eq!(mixed.characteristic_polynomial().degree(), mixed.degree());
}

#[test]
fn construction_rejects_mismatched_shapes() {
    let result = RecurrenceRelation::try_new(bv(&[0.0, 1.0]), bv(&[1.0, 1.0, 1.0]));
    assert_eq!(result.err(), Some(ShapeError::LengthMismatch));
    let empty = RecurrenceRelation::try_new(Vec::new(), Vec::new());
    assert_eq!(empty.err(), Some(ShapeError::Empty));
    let good = RecurrenceRelation::try_new(bv(&[0.0, 1.0]), bv(&[1.0, 1.0]));
    assert!(good.is_ok());
}

#[test]
fn get_terms_shorter_than_degree_copies_base_cases() {
    let relation = RecurrenceRelation::new(bv(&[1.0, -2.0, 3.0]), bv(&[-6.0, -12.0, -8.0]));
    assert_eq!(relation.get_terms(2), bv(&[1.0, -2.0]));
    assert_eq!(relation.get_terms(0), bv(&[]));
}

#[test]
fn first_order_relation_compounds() {
    // f(n) = 3 f(n-1), f(0) = 1: the terms are the powers of three.
    let relation = RecurrenceRelation::new(bv(&[1.0]), bv(&[3.0]));
    assert_eq!(relation.get_terms(5), bv(&[1.0, 3.0, 9.0, 27.0, 81.0]));
}

#[test]
fn solution_evaluates_base_case_at_zero() {
    let fibonacci = RecurrenceRelation::new(bv(&[0.0, 1.0]), bv(&[1.0, 1.0]));
    let at_zero = f64::from_bits(solve(&fibonacci).evaluate(0));
    assert!((at_zero - 0.0).abs() < 0.001);

    let mixed = RecurrenceRelation::new(bv(&[1.0, -2.0, 3.0]), bv(&[-6.0, -12.0, -8.0]));
    let mixed_at_zero = f64::from_bits(solve(&mixed).evaluate(0));
    assert!((mixed_at_zero - 1.0).abs() < 0.001);
}

#[test]
fn solution_system_entries_are_root_powers() {
    // One root 2.0 of multiplicity 2 over a degree-2 relation: row n holds
    // 2^n * n^0 and 2^n * n^1.
    let relation = RecurrenceRelation::new(bv(&[1.0, 2.0]), bv(&[4.0, -4.0]));
    let system = relation.solution_system(&vec![(b(2.0), 2)]);
    assert_eq!(fv(&system), vec![1.0, 0.0, 2.0, 2.0]);
}
