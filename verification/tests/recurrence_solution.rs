use recurrence::polynomial::Polynomial;
use recurrence::recurrence_solution::{index, RecurrenceSolution};
use recurrence::utilities::vec_within;
use rustc_apfloat::Float;

fn b(x: f64) -> u64 {
    x.to_bits()
}

fn bv(xs: &[f64]) -> Vec<u64> {
    xs.iter().map(|x| x.to_bits()).collect()
}

#[test]
fn recurrence_solution_test_get_terms() {
    let recurrence_solution1 = RecurrenceSolution::new(vec![
        (Polynomial::new(bv(&[0.4472135955])), b(1.618_033_988_749_895)),
        (
            Polynomial::new(bv(&[-0.4472135955])),
            b(-0.618_033_988_749_894_9),
        ),
    ]);
    let terms1 = bv(&[0.0, 1.0, 1.0, 2.0, 3.0, 5.0, 8.0, 13.0, 21.0, 34.0]);
    assert!(vec_within(&recurrence_solution1.get_terms(10), &terms1));
}

#[test]
fn repeated_root_solution_evaluates() {
    // (1 + n) * 2^n: base cases 1, 4, coefficients for the recurrence
    // f(n) = 4 f(n-1) - 4 f(n-2), whose double root is 2.
    let solution = RecurrenceSolution::new(vec![(Polynomial::new(bv(&[1.0, 1.0])), b(2.0))]);
    let expected = bv(&[1.0, 4.0, 12.0, 32.0, 80.0]);
    assert!(vec_within(&solution.get_terms(5), &expected));
}

#[test]
fn evaluate_at_zero_sums_constant_terms() {
    let solution = RecurrenceSolution::new(vec![
        (Polynomial::new(bv(&[2.5])), b(3.0)),
        (Polynomial::new(bv(&[-1.5])), b(-7.0)),
    ]);
    // At zero every root power is one, so the constant coefficients sum.
    assert_eq!(f64::from_bits(solution.evaluate(0)), 1.0);
}

#[test]
fn render_spells_out_terms() {
    let solution = RecurrenceSolution::new(vec![
        (Polynomial::new(bv(&[0.5])), b(2.0)),
        (Polynomial::new(bv(&[1.5])), b(-1.0)),
    ]);
    let rendered = solution.render();
    let half = format!("{}", rustc_apfloat::ieee::Double::from_bits(0.5f64.to_bits() as u128));
    let two = format!("{}", rustc_apfloat::ieee::Double::from_bits(2.0f64.to_bits() as u128));
    assert_eq!(
        rendered,
        format!(
            "({}n^0 ) * {}^n + ({}n^0 ) * {}^n",
            half,
            two,
            format!("{}", rustc_apfloat::ieee::Double::from_bits(1.5f64.to_bits() as u128)),
            format!("{}", rustc_apfloat::ieee::Double::from_bits((-1.0f64).to_bits() as u128)),
        )
    );
}

#[test]
fn index_captions_the_rendering() {
    let solution = RecurrenceSolution::new(vec![(Polynomial::new(bv(&[1.0])), b(1.0))]);
    let page = index(&solution);
    assert!(page.starts_with("solution to fibonacci: "));
    assert!(page.contains("^n"));
    assert_eq!(page, format!("solution to fibonacci: {}", solution.render()));
}
