use recurrence::recurrence_relation::RecurrenceRelation;
use recurrence::recurrence_relation_parser::{
    parse_base_case, parse_recurrence, parse_recurrence_relation, ParseRecurrenceError,
};

fn b(x: f64) -> u64 {
    x.to_bits()
}

fn bv(xs: &[f64]) -> Vec<u64> {
    xs.iter().map(|x| x.to_bits()).collect()
}

#[test]
fn test_parse_base_case() {
    assert_eq!(parse_base_case("f(0) = 1.0").unwrap(), (b(1.0), 0));
    assert_eq!(parse_base_case("f(0) = 1").unwrap(), (b(1.0), 0));
    assert_eq!(parse_base_case("f(0) = -1").unwrap(), (b(-1.0), 0));
    assert_eq!(parse_base_case("f(2) = 3.24").unwrap(), (b(3.24), 2));
    assert_eq!(parse_base_case("a(2) = 3.24").unwrap(), (b(3.24), 2));
}

#[test]
fn test_parse_recurrence() {
    assert_eq!(parse_recurrence("f(n) = 1.0f(n-1)").unwrap(), bv(&[1.0]));
    assert_eq!(parse_recurrence("f(n) = 1f(n-1)").unwrap(), bv(&[1.0]));
    assert_eq!(parse_recurrence("f(n) = f(n-1)").unwrap(), bv(&[1.0]));
    assert_eq!(parse_recurrence("f(n) = 3.24f(n-1)").unwrap(), bv(&[3.24]));
    assert_eq!(parse_recurrence("f(n) = 1.0*f(n-1)").unwrap(), bv(&[1.0]));
    assert_eq!(parse_recurrence("f(n) = 1  *f(n-1)").unwrap(), bv(&[1.0]));
    assert_eq!(
        parse_recurrence("f(n) = 3.24  *        f(n-1)").unwrap(),
        bv(&[3.24])
    );
    assert_eq!(
        parse_recurrence("f(n) = f(n-1) + f(n-2)").unwrap(),
        bv(&[1.0, 1.0])
    );
    assert_eq!(
        parse_recurrence("f(n) = 3*f(n-1) + 5*f(n-3) + 10.67*f(n-6)").unwrap(),
        bv(&[3.0, 0.0, 5.0, 0.0, 0.0, 10.67])
    );
}

#[test]
fn test_parse_recurrence_relation() {
    let relation: RecurrenceRelation = "f(n) = f(n-1) + f(n-2), f(0) = 0, f(1) = 1"
        .parse()
        .unwrap();
    assert_eq!(
        relation,
        RecurrenceRelation::new(bv(&[0.0, 1.0]), bv(&[1.0, 1.0]))
    );
    let relation: RecurrenceRelation =
        "a(n) = 5a(n-4) + 6.7*a(n-3), a(3)=5.0, a(1)=4   ,   a(0)=1.00,a(2)=3"
            .parse()
            .unwrap();
    assert_eq!(
        relation,
        RecurrenceRelation::new(bv(&[1.0, 4.0, 3.0, 5.0]), bv(&[0.0, 0.0, 6.7, 5.0]))
    );
}

#[test]
fn parse_rejects_missing_recurrence() {
    assert_eq!(
        parse_recurrence_relation("f(0) = 1").err(),
        Some(ParseRecurrenceError::NoRecurrence)
    );
}

#[test]
fn parse_rejects_second_recurrence() {
    assert_eq!(
        parse_recurrence_relation("f(n) = f(n-1), f(n) = f(n-2), f(0) = 1").err(),
        Some(ParseRecurrenceError::MultipleRecurrence)
    );
}

#[test]
fn parse_rejects_unrecognized_clause() {
    assert_eq!(
        parse_recurrence_relation("f(n) = f(n-1), huh, f(0) = 1").err(),
        Some(ParseRecurrenceError::TermMatchesNothing)
    );
}

#[test]
fn parse_rejects_duplicate_base_case() {
    assert_eq!(
        parse_recurrence_relation("f(n) = f(n-1), f(0) = 1, f(0) = 2").err(),
        Some(ParseRecurrenceError::MultipleBaseCase)
    );
}

#[test]
fn parse_rejects_missing_base_case() {
    assert_eq!(
        parse_recurrence_relation("f(n) = f(n-2), f(0) = 1").err(),
        Some(ParseRecurrenceError::NoBaseCase)
    );
}

#[test]
fn parse_rejects_base_case_beyond_degree() {
    assert_eq!(
        parse_recurrence_relation("f(n) = f(n-1), f(5) = 1, f(0) = 0").err(),
        Some(ParseRecurrenceError::BaseCaseError)
    );
}

#[test]
fn base_case_errors_name_the_failing_part() {
    assert_eq!(
        parse_base_case("f0 = 1").err(),
        Some(ParseRecurrenceError::BaseCaseError)
    );
    assert_eq!(
        parse_base_case("f(x) = 1").err(),
        Some(ParseRecurrenceError::ParseIntError)
    );
    assert_eq!(
        parse_base_case("f(0) = abc").err(),
        Some(ParseRecurrenceError::ParseFloatError)
    );
    assert_eq!(
        parse_base_case("f(0) = 1 = 2").err(),
        Some(ParseRecurrenceError::BaseCaseError)
    );
}

#[test]
fn recurrence_errors_name_the_failing_part() {
    assert_eq!(
        parse_recurrence("nonsense").err(),
        Some(ParseRecurrenceError::RecurrenceError)
    );
    assert_eq!(
        parse_recurrence("f(n) = f(n-x)").err(),
        Some(ParseRecurrenceError::ParseIntError)
    );
    assert_eq!(
        parse_recurrence("f(n) = 1.x*f(n-1)").err(),
        Some(ParseRecurrenceError::ParseFloatError)
    );
    assert_eq!(
        parse_recurrence("f(n) = f(n-0)").err(),
        Some(ParseRecurrenceError::RecurrenceError)
    );
}

#[test]
fn base_case_index_accepts_a_plus_sign() {
    assert_eq!(parse_base_case("f(+1) = 2").unwrap(), (b(2.0), 1));
}

#[test]
fn whitespace_around_clauses_is_ignored() {
    let relation: RecurrenceRelation = "  f(n) = 2f(n-1) ,  f(0) = 3  ".parse().unwrap();
    assert_eq!(relation, RecurrenceRelation::new(bv(&[3.0]), bv(&[2.0])));
}
