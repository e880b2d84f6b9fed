use recurrence::double::{pow_bits, within, ONE_BITS, TOLERANCE_BITS, ZERO_BITS};
use recurrence::polynomial::Polynomial;

fn b(x: f64) -> u64 {
    x.to_bits()
}

fn bv(xs: &[f64]) -> Vec<u64> {
    xs.iter().map(|x| x.to_bits()).collect()
}

#[test]
fn constants_are_the_doubles_they_claim() {
    assert_eq!(ZERO_BITS, 0.0f64.to_bits());
    assert_eq!(ONE_BITS, 1.0f64.to_bits());
    assert_eq!(TOLERANCE_BITS, 0.001f64.to_bits());
}

#[test]
fn evaluation_matches_hardware_doubles() {
    // At n = 1 every power is one, so evaluation sums the coefficients in
    // order, with each intermediate sum rounded as hardware doubles round.
    let poly = Polynomial::new(bv(&[0.1, 0.2]));
    assert_eq!(poly.evaluate(1), b(0.1 + 0.2));
    let longer = Polynomial::new(bv(&[1.25, 2.5, -0.75]));
    assert_eq!(longer.evaluate(1), b(1.25 + 2.5 + -0.75));
    // At n = 2 the powers of two scale each coefficient.
    assert_eq!(poly.evaluate(2), b(0.1 + 0.2 * 2.0));
}

#[test]
fn companion_entries_divide_by_the_leading_coefficient() {
    // For a degree-one polynomial the single companion entry is
    // -constant / leading.
    let third = Polynomial::new(bv(&[1.0, 3.0]));
    assert_eq!(third.companion_matrix(), vec![b(-(1.0 / 3.0))]);
    let halves = Polynomial::new(bv(&[3.0, 2.0]));
    assert_eq!(halves.companion_matrix(), vec![b(-1.5)]);
}

#[test]
fn pow_is_repeated_multiplication() {
    assert_eq!(pow_bits(b(2.0), 10), b(1024.0));
    assert_eq!(pow_bits(b(5.0), 0), b(1.0));
    assert_eq!(pow_bits(b(-1.5), 2), b(2.25));
}

#[test]
fn within_compares_under_the_tolerance() {
    assert!(within(b(1.0), b(1.0005)));
    assert!(within(b(1.0005), b(1.0)));
    assert!(!within(b(1.0), b(1.0015)));
    assert!(!within(b(1.0), b(2.0)));
    assert!(within(b(-2.0), b(-2.0)));
    // A NaN is within tolerance of nothing, not even itself.
    assert!(!within(b(f64::NAN), b(f64::NAN)));
}
