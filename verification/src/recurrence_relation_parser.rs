//! Parsing a recurrence relation from its textual form: a comma-separated
//! list of clauses, each either a base-case assignment `name(index) = value`
//! or the one recurrence clause
//! `name(n) = [coefficient[*]]name(n-index) [+ ...]`, where an absent
//! coefficient defaults to `1`.

use crate::double::{double_of_str, parse_double_bits, ONE_BITS, ZERO_BITS};
use crate::recurrence_relation::RecurrenceRelation;
use crate::text::{
    find_char, index_of_char, lemma_index_of_char_props, parse_usize, parse_usize_of, split_char,
    split_of, trim, trim_of,
};
use vstd::prelude::*;

verus! {

/// Why a recurrence relation failed to parse.
#[derive(Debug, PartialEq, Eq, Structural, Clone, Copy)]
pub enum ParseRecurrenceError {
    /// No clause parses as a recurrence definition.
    NoRecurrence,
    /// More than one clause parses as a recurrence definition.
    MultipleRecurrence,
    /// A clause parses neither as a base case nor as a recurrence.
    TermMatchesNothing,
    /// Two base cases give the same index.
    MultipleBaseCase,
    /// An index below the degree has no base case, or a base-case index
    /// lies beyond the degree.
    NoBaseCase,
    /// An equals sign is missing.
    MissingEquals,
    /// A numeric value does not parse as a double.
    ParseFloatError,
    /// An index does not parse as an unsigned integer.
    ParseIntError,
    /// A base-case clause is malformed.
    BaseCaseError,
    /// A recurrence clause is malformed.
    RecurrenceError,
}

/// What a base-case clause `name(index) = value` parses to: the value and
/// the index.
pub open spec fn parse_base_case_of(s: Seq<char>) -> Result<(u64, usize), ParseRecurrenceError> {
    let parts = split_of(s, '=');
    if parts.len() != 2 {
        Err(ParseRecurrenceError::BaseCaseError)
    } else {
        match (index_of_char(parts[0], '('), index_of_char(parts[0], ')')) {
            (Some(lp), Some(rp)) => if rp < lp + 1 {
                Err(ParseRecurrenceError::BaseCaseError)
            } else {
                match parse_usize_of(trim_of(parts[0].subrange(lp + 1, rp))) {
                    None => Err(ParseRecurrenceError::ParseIntError),
                    Some(index) => match double_of_str(trim_of(parts[1])) {
                        None => Err(ParseRecurrenceError::ParseFloatError),
                        Some(value) => Ok((value, index)),
                    },
                }
            },
            _ => Err(ParseRecurrenceError::BaseCaseError),
        }
    }
}

/// What one recurrence term `[coefficient[*]]name(n-index)` parses to: the
/// coefficient (one where absent) and the back-reference index.
pub open spec fn parse_term_of(raw: Seq<char>) -> Result<(u64, usize), ParseRecurrenceError> {
    let part = trim_of(raw);
    match (index_of_char(part, '('), index_of_char(part, ')'), index_of_char(part, '-')) {
        (Some(lp), Some(rp), Some(mi)) => if rp < mi + 1 {
            Err(ParseRecurrenceError::RecurrenceError)
        } else {
            match parse_usize_of(trim_of(part.subrange(mi + 1, rp))) {
                None => Err(ParseRecurrenceError::ParseIntError),
                Some(index) => if lp == 0 {
                    Err(ParseRecurrenceError::RecurrenceError)
                } else if lp == 1 {
                    Ok((ONE_BITS, index))
                } else {
                    match double_of_str(trim_of(part.take(lp - 1))) {
                        Some(c) => Ok((c, index)),
                        None => match index_of_char(part, '*') {
                            None => Err(ParseRecurrenceError::RecurrenceError),
                            Some(ti) => match double_of_str(trim_of(part.take(ti))) {
                                Some(c) => Ok((c, index)),
                                None => Err(ParseRecurrenceError::ParseFloatError),
                            },
                        },
                    }
                },
            }
        },
        _ => Err(ParseRecurrenceError::RecurrenceError),
    }
}

/// What the first `k` terms of a recurrence's right-hand side parse to.
pub open spec fn parse_terms_of(parts: Seq<Seq<char>>, k: nat) -> Result<
    Seq<(u64, usize)>,
    ParseRecurrenceError,
>
    decreases k,
{
    if k == 0 {
        Ok(Seq::empty())
    } else {
        match parse_terms_of(parts, (k - 1) as nat) {
            Err(e) => Err(e),
            Ok(pairs) => match parse_term_of(parts[k - 1]) {
                Err(e) => Err(e),
                Ok(p) => Ok(pairs.push(p)),
            },
        }
    }
}

/// The largest back-reference among the parsed terms: the degree.
pub open spec fn max_back_reference(pairs: Seq<(u64, usize)>) -> int
    decreases pairs.len(),
{
    if pairs.len() == 0 {
        0
    } else {
        vstd::math::max(max_back_reference(pairs.drop_last()), pairs.last().1 as int)
    }
}

/// The coefficient vector after the first `k` parsed terms are written into
/// `res`: term `(c, index)` sets position `index - 1`, a later term
/// overwriting an earlier one; a zero index is malformed.
pub open spec fn assign_coefficients_of(
    pairs: Seq<(u64, usize)>,
    k: nat,
    res: Seq<u64>,
) -> Result<Seq<u64>, ParseRecurrenceError>
    decreases k,
{
    if k == 0 {
        Ok(res)
    } else {
        match assign_coefficients_of(pairs, (k - 1) as nat, res) {
            Err(e) => Err(e),
            Ok(r) => if pairs[k - 1].1 == 0 {
                Err(ParseRecurrenceError::RecurrenceError)
            } else {
                Ok(r.update(pairs[k - 1].1 - 1, pairs[k - 1].0))
            },
        }
    }
}

/// A vector of `n` zero coefficients.
pub open spec fn zero_coefficients(n: nat) -> Seq<u64> {
    Seq::new(n, |i: int| ZERO_BITS)
}

/// What a recurrence clause parses to: one coefficient per back reference
/// from `1` to the largest one, those not named being zero.
pub open spec fn parse_recurrence_of(s: Seq<char>) -> Result<Seq<u64>, ParseRecurrenceError> {
    let parts = split_of(s, '=');
    if parts.len() != 2 {
        Err(ParseRecurrenceError::RecurrenceError)
    } else {
        let term_parts = split_of(parts[1], '+');
        match parse_terms_of(term_parts, term_parts.len()) {
            Err(e) => Err(e),
            Ok(pairs) => assign_coefficients_of(
                pairs,
                pairs.len(),
                zero_coefficients(max_back_reference(pairs) as nat),
            ),
        }
    }
}

/// The recurrence clause and the base-case pairs found among the first `k`
/// clauses: each clause is tried as a base case first, then as a
/// recurrence; a second recurrence clause or an unparseable clause stops
/// the scan.
pub open spec fn scan_equations_of(eqs: Seq<Seq<char>>, k: nat) -> Result<
    (Option<Seq<u64>>, Seq<(u64, usize)>),
    ParseRecurrenceError,
>
    decreases k,
{
    if k == 0 {
        Ok((None, Seq::empty()))
    } else {
        match scan_equations_of(eqs, (k - 1) as nat) {
            Err(e) => Err(e),
            Ok((rec, pairs)) => {
                let eq = trim_of(eqs[k - 1]);
                match parse_base_case_of(eq) {
                    Ok(p) => Ok((rec, pairs.push(p))),
                    Err(_) => match parse_recurrence_of(eq) {
                        Ok(r) => if rec is Some {
                            Err(ParseRecurrenceError::MultipleRecurrence)
                        } else {
                            Ok((Some(r), pairs))
                        },
                        Err(_) => Err(ParseRecurrenceError::TermMatchesNothing),
                    },
                }
            },
        }
    }
}

/// The base-case slots after the first `k` pairs are written in: slot
/// `index` takes the value; an index already filled or beyond the degree is
/// an error.
pub open spec fn fill_base_cases_of(
    pairs: Seq<(u64, usize)>,
    k: nat,
    slots: Seq<Option<u64>>,
) -> Result<Seq<Option<u64>>, ParseRecurrenceError>
    decreases k,
{
    if k == 0 {
        Ok(slots)
    } else {
        match fill_base_cases_of(pairs, (k - 1) as nat, slots) {
            Err(e) => Err(e),
            Ok(sl) => if pairs[k - 1].1 >= sl.len() {
                Err(ParseRecurrenceError::BaseCaseError)
            } else if sl[pairs[k - 1].1 as int] is Some {
                Err(ParseRecurrenceError::MultipleBaseCase)
            } else {
                Ok(sl.update(pairs[k - 1].1 as int, Some(pairs[k - 1].0)))
            },
        }
    }
}

/// The filled slots as plain values: every slot must be filled.
pub open spec fn unwrap_slots_of(slots: Seq<Option<u64>>) -> Result<
    Seq<u64>,
    ParseRecurrenceError,
> {
    if forall|i: int| 0 <= i < slots.len() ==> #[trigger] slots[i] is Some {
        Ok(Seq::new(slots.len(), |i: int| slots[i]->0))
    } else {
        Err(ParseRecurrenceError::NoBaseCase)
    }
}

/// What a whole relation string parses to: the base cases and the
/// recurrence coefficients, both as long as the degree — the largest back
/// reference of the one recurrence clause.
pub open spec fn parse_recurrence_relation_of(s: Seq<char>) -> Result<
    (Seq<u64>, Seq<u64>),
    ParseRecurrenceError,
> {
    let eqs = split_of(s, ',');
    match scan_equations_of(eqs, eqs.len()) {
        Err(e) => Err(e),
        Ok((rec_opt, pairs)) => match rec_opt {
            None => Err(ParseRecurrenceError::NoRecurrence),
            Some(rec) => match fill_base_cases_of(
                pairs,
                pairs.len(),
                Seq::new(rec.len(), |i: int| None::<u64>),
            ) {
                Err(e) => Err(e),
                Ok(slots) => match unwrap_slots_of(slots) {
                    Err(e) => Err(e),
                    Ok(bcs) => Ok((bcs, rec)),
                },
            },
        },
    }
}

/// Parses a base-case clause `name(index) = value`.
pub fn parse_base_case(s: &str) -> (r: Result<(u64, usize), ParseRecurrenceError>)
    ensures
        r == parse_base_case_of(s@),
{
    let parts = split_char(s, '=');
    if parts.len() != 2 {
        return Err(ParseRecurrenceError::BaseCaseError);
    }
    let left = parts[0];
    let right = parts[1];
    proof {
        assert(left@ == split_of(s@, '=')[0]);
        assert(right@ == split_of(s@, '=')[1]);
        lemma_index_of_char_props(left@, '(');
        lemma_index_of_char_props(left@, ')');
    }
    let lp = match find_char(left, '(') {
        Some(i) => i,
        None => {
            return Err(ParseRecurrenceError::BaseCaseError);
        },
    };
    let rp = match find_char(left, ')') {
        Some(i) => i,
        None => {
            return Err(ParseRecurrenceError::BaseCaseError);
        },
    };
    if rp <= lp {
        return Err(ParseRecurrenceError::BaseCaseError);
    }
    let inner = trim(left.substring_char(lp + 1, rp));
    proof {
        assert(inner@ == trim_of(split_of(s@, '=')[0].subrange(lp + 1, rp as int)));
    }
    let index = match parse_usize(inner) {
        Some(v) => v,
        None => {
            return Err(ParseRecurrenceError::ParseIntError);
        },
    };
    let value = match parse_double_bits(trim(right)) {
        Some(v) => v,
        None => {
            return Err(ParseRecurrenceError::ParseFloatError);
        },
    };
    Ok((value, index))
}

/// Parses one recurrence term `[coefficient[*]]name(n-index)`.
pub fn parse_term(raw: &str) -> (r: Result<(u64, usize), ParseRecurrenceError>)
    ensures
        r == parse_term_of(raw@),
{
    let part = trim(raw);
    proof {
        lemma_index_of_char_props(part@, '(');
        lemma_index_of_char_props(part@, ')');
        lemma_index_of_char_props(part@, '-');
        lemma_index_of_char_props(part@, '*');
    }
    let lp = match find_char(part, '(') {
        Some(i) => i,
        None => {
            return Err(ParseRecurrenceError::RecurrenceError);
        },
    };
    let rp = match find_char(part, ')') {
        Some(i) => i,
        None => {
            return Err(ParseRecurrenceError::RecurrenceError);
        },
    };
    let mi = match find_char(part, '-') {
        Some(i) => i,
        None => {
            return Err(ParseRecurrenceError::RecurrenceError);
        },
    };
    if rp <= mi {
        return Err(ParseRecurrenceError::RecurrenceError);
    }
    let index = match parse_usize(trim(part.substring_char(mi + 1, rp))) {
        Some(v) => v,
        None => {
            return Err(ParseRecurrenceError::ParseIntError);
        },
    };
    if lp == 0 {
        return Err(ParseRecurrenceError::RecurrenceError);
    }
    if lp == 1 {
        return Ok((ONE_BITS, index));
    }
    match parse_double_bits(trim(part.substring_char(0, lp - 1))) {
        Some(c) => {
            proof {
                assert(part@.subrange(0, lp - 1) =~= part@.take(lp - 1));
            }
            Ok((c, index))
        },
        None => {
            proof {
                assert(part@.subrange(0, lp - 1) =~= part@.take(lp - 1));
            }
            let ti = match find_char(part, '*') {
                Some(i) => i,
                None => {
                    return Err(ParseRecurrenceError::RecurrenceError);
                },
            };
            match parse_double_bits(trim(part.substring_char(0, ti))) {
                Some(c) => {
                    proof {
                        assert(part@.subrange(0, ti as int) =~= part@.take(ti as int));
                    }
                    Ok((c, index))
                },
                None => {
                    proof {
                        assert(part@.subrange(0, ti as int) =~= part@.take(ti as int));
                    }
                    Err(ParseRecurrenceError::ParseFloatError)
                },
            }
        },
    }
}

/// A failed term keeps the whole right-hand side failed.
proof fn lemma_parse_terms_err(parts: Seq<Seq<char>>, k: nat, m: nat)
    requires
        k <= m,
        parse_terms_of(parts, k) is Err,
    ensures
        parse_terms_of(parts, m) == parse_terms_of(parts, k),
    decreases m,
{
    if m > k {
        lemma_parse_terms_err(parts, k, (m - 1) as nat);
    }
}

/// A failed assignment keeps the whole coefficient vector failed.
proof fn lemma_assign_err(pairs: Seq<(u64, usize)>, k: nat, m: nat, res: Seq<u64>)
    requires
        k <= m,
        assign_coefficients_of(pairs, k, res) is Err,
    ensures
        assign_coefficients_of(pairs, m, res) == assign_coefficients_of(pairs, k, res),
    decreases m,
{
    if m > k {
        lemma_assign_err(pairs, k, (m - 1) as nat, res);
    }
}

/// The degree bounds every term's back reference.
proof fn lemma_max_back_reference_ge(pairs: Seq<(u64, usize)>, p: int)
    requires
        0 <= p < pairs.len(),
    ensures
        max_back_reference(pairs) >= pairs[p].1,
        max_back_reference(pairs) >= 0,
    decreases pairs.len(),
{
    lemma_max_back_reference_nonneg(pairs);
    if p < pairs.len() - 1 {
        let head = pairs.drop_last();
        assert(head[p] == pairs[p]);
        lemma_max_back_reference_ge(head, p);
    }
}

/// The degree is never negative.
proof fn lemma_max_back_reference_nonneg(pairs: Seq<(u64, usize)>)
    ensures
        max_back_reference(pairs) >= 0,
    decreases pairs.len(),
{
    if pairs.len() > 0 {
        lemma_max_back_reference_nonneg(pairs.drop_last());
    }
}

/// Splitting yields at least one piece.
proof fn lemma_split_nonempty(s: Seq<char>, sep: char)
    ensures
        split_of(s, sep).len() >= 1,
{
}

/// A successful assignment means no term referred back zero steps.
proof fn lemma_assign_pos(pairs: Seq<(u64, usize)>, k: nat, res: Seq<u64>)
    requires
        assign_coefficients_of(pairs, k, res) is Ok,
    ensures
        forall|p: int| 0 <= p < k ==> (#[trigger] pairs[p].1) >= 1,
    decreases k,
{
    if k > 0 {
        lemma_assign_pos(pairs, (k - 1) as nat, res);
    }
}

/// Parses the one recurrence clause
/// `name(n) = [coefficient[*]]name(n-index) [+ ...]`: the result holds one
/// coefficient per back reference from `1` to the degree, the largest back
/// reference named, and is never empty on success.
pub fn parse_recurrence(s: &str) -> (r: Result<Vec<u64>, ParseRecurrenceError>)
    ensures
        match r {
            Ok(v) => parse_recurrence_of(s@) == Ok::<_, ParseRecurrenceError>(v@) && v@.len()
                >= 1,
            Err(e) => parse_recurrence_of(s@) == Err::<Seq<u64>, _>(e),
        },
{
    let parts = split_char(s, '=');
    if parts.len() != 2 {
        return Err(ParseRecurrenceError::RecurrenceError);
    }
    let right = parts[1];
    proof {
        assert(right@ == split_of(s@, '=')[1]);
    }
    let term_parts = split_char(right, '+');
    let ghost tp = split_of(right@, '+');
    let mut pairs: Vec<(u64, usize)> = Vec::new();
    let mut degree: usize = 0;
    let n = term_parts.len();
    let mut k: usize = 0;
    while k < n
        invariant
            split_of(s@, '=').len() == 2,
            right@ == split_of(s@, '=')[1],
            n == term_parts@.len(),
            tp == split_of(right@, '+'),
            term_parts@.map_values(|p: &str| p@) == tp,
            k <= n,
            parse_terms_of(tp, k as nat) == Ok::<_, ParseRecurrenceError>(pairs@),
            degree == max_back_reference(pairs@),
            pairs@.len() == k,
        decreases n - k,
    {
        proof {
            assert(term_parts@[k as int]@ == tp[k as int]);
        }
        match parse_term(term_parts[k]) {
            Ok(p) => {
                proof {
                    assert(pairs@.push(p).drop_last() =~= pairs@);
                }
                pairs.push(p);
                if p.1 > degree {
                    degree = p.1;
                }
            },
            Err(e) => {
                proof {
                    lemma_parse_terms_err(tp, (k + 1) as nat, tp.len());
                }
                return Err(e);
            },
        }
        k = k + 1;
    }
    let mut res: Vec<u64> = Vec::new();
    let mut i: usize = 0;
    while i < degree
        invariant
            i <= degree,
            res@ == zero_coefficients(degree as nat).take(i as int),
        decreases degree - i,
    {
        res.push(ZERO_BITS);
        proof {
            assert(res@ =~= zero_coefficients(degree as nat).take(i + 1));
        }
        i = i + 1;
    }
    proof {
        assert(res@ =~= zero_coefficients(degree as nat));
    }
    let ghost zeros = zero_coefficients(degree as nat);
    let m = pairs.len();
    let mut t: usize = 0;
    while t < m
        invariant
            split_of(s@, '=').len() == 2,
            right@ == split_of(s@, '=')[1],
            tp == split_of(right@, '+'),
            parse_terms_of(tp, tp.len()) == Ok::<_, ParseRecurrenceError>(pairs@),
            tp.len() == pairs@.len(),
            m == pairs@.len(),
            t <= m,
            degree == max_back_reference(pairs@),
            assign_coefficients_of(pairs@, t as nat, zeros) == Ok::<_, ParseRecurrenceError>(
                res@,
            ),
            res@.len() == degree,
            zeros == zero_coefficients(degree as nat),
        decreases m - t,
    {
        let (coefficient, index) = pairs[t];
        if index == 0 {
            proof {
                lemma_assign_err(pairs@, (t + 1) as nat, pairs@.len(), zeros);
            }
            return Err(ParseRecurrenceError::RecurrenceError);
        }
        proof {
            lemma_max_back_reference_ge(pairs@, t as int);
        }
        res[index - 1] = coefficient;
        t = t + 1;
    }
    proof {
        lemma_split_nonempty(right@, '+');
        assert(pairs@.len() >= 1);
        lemma_assign_pos(pairs@, pairs@.len(), zeros);
        lemma_max_back_reference_ge(pairs@, 0);
        assert(degree >= 1);
    }
    Ok(res)
}

/// Parses a whole recurrence relation: a comma-separated list of clauses,
/// exactly one of them a recurrence definition, the others base cases
/// covering every index from `0` to the degree minus one exactly once.
pub fn parse_recurrence_relation(s: &str) -> (r: Result<
    RecurrenceRelation,
    ParseRecurrenceError,
>)
    ensures
        match r {
            Ok(rel) => {
                &&& parse_recurrence_relation_of(s@) is Ok
                &&& rel.base_cases_spec() == parse_recurrence_relation_of(s@)->Ok_0.0
                &&& rel.coefficients_spec() == parse_recurrence_relation_of(s@)->Ok_0.1
                &&& rel.wf()
            },
            Err(e) => parse_recurrence_relation_of(s@) == Err::<(Seq<u64>, Seq<u64>), _>(e),
        },
{
    let equations = split_char(s, ',');
    let ghost eqs = split_of(s@, ',');
    let mut recurrence: Option<Vec<u64>> = None;
    let mut pairs: Vec<(u64, usize)> = Vec::new();
    let n = equations.len();
    let mut k: usize = 0;
    while k < n
        invariant
            n == equations@.len(),
            eqs == split_of(s@, ','),
            equations@.map_values(|p: &str| p@) == eqs,
            k <= n,
            scan_equations_of(eqs, k as nat) == Ok::<_, ParseRecurrenceError>(
                (
                    match recurrence {
                        Some(v) => Some(v@),
                        None => None,
                    },
                    pairs@,
                ),
            ),
            match recurrence {
                Some(v) => v@.len() >= 1,
                None => true,
            },
        decreases n - k,
    {
        proof {
            assert(equations@[k as int]@ == eqs[k as int]);
        }
        let eq = trim(equations[k]);
        match parse_base_case(eq) {
            Ok(p) => {
                pairs.push(p);
            },
            Err(_) => {
                match parse_recurrence(eq) {
                    Ok(rec) => {
                        if recurrence.is_some() {
                            proof {
                                lemma_scan_err(eqs, (k + 1) as nat, eqs.len());
                            }
                            return Err(ParseRecurrenceError::MultipleRecurrence);
                        }
                        recurrence = Some(rec);
                    },
                    Err(_) => {
                        proof {
                            lemma_scan_err(eqs, (k + 1) as nat, eqs.len());
                        }
                        return Err(ParseRecurrenceError::TermMatchesNothing);
                    },
                }
            },
        }
        k = k + 1;
    }
    let recurrence = match recurrence {
        Some(v) => v,
        None => {
            return Err(ParseRecurrenceError::NoRecurrence);
        },
    };
    let ghost rec_view = recurrence@;
    let degree = recurrence.len();
    let mut slots: Vec<Option<u64>> = Vec::new();
    let mut i: usize = 0;
    while i < degree
        invariant
            i <= degree,
            slots@ == Seq::new(degree as nat, |p: int| None::<u64>).take(i as int),
        decreases degree - i,
    {
        slots.push(None);
        proof {
            assert(slots@ =~= Seq::new(degree as nat, |p: int| None::<u64>).take(i + 1));
        }
        i = i + 1;
    }
    proof {
        assert(slots@ =~= Seq::new(degree as nat, |p: int| None::<u64>));
    }
    let ghost empty_slots = Seq::new(degree as nat, |p: int| None::<u64>);
    let m = pairs.len();
    let mut t: usize = 0;
    while t < m
        invariant
            eqs == split_of(s@, ','),
            scan_equations_of(eqs, eqs.len()) == Ok::<_, ParseRecurrenceError>(
                (Some(rec_view), pairs@),
            ),
            rec_view == recurrence@,
            degree == rec_view.len(),
            m == pairs@.len(),
            t <= m,
            slots@.len() == degree,
            fill_base_cases_of(pairs@, t as nat, empty_slots) == Ok::<_, ParseRecurrenceError>(
                slots@,
            ),
            empty_slots == Seq::new(degree as nat, |p: int| None::<u64>),
        decreases m - t,
    {
        let (num, index) = pairs[t];
        if index >= slots.len() {
            proof {
                lemma_fill_err(pairs@, (t + 1) as nat, pairs@.len(), empty_slots);
            }
            return Err(ParseRecurrenceError::BaseCaseError);
        }
        if slots[index].is_some() {
            proof {
                lemma_fill_err(pairs@, (t + 1) as nat, pairs@.len(), empty_slots);
            }
            return Err(ParseRecurrenceError::MultipleBaseCase);
        }
        slots[index] = Some(num);
        t = t + 1;
    }
    let mut base_cases: Vec<u64> = Vec::new();
    let mut b: usize = 0;
    while b < degree
        invariant
            eqs == split_of(s@, ','),
            scan_equations_of(eqs, eqs.len()) == Ok::<_, ParseRecurrenceError>(
                (Some(rec_view), pairs@),
            ),
            rec_view == recurrence@,
            degree == rec_view.len(),
            fill_base_cases_of(pairs@, pairs@.len(), empty_slots) == Ok::<
                _,
                ParseRecurrenceError,
            >(slots@),
            empty_slots == Seq::new(degree as nat, |p: int| None::<u64>),
            degree == slots@.len(),
            b <= degree,
            base_cases@.len() == b,
            forall|p: int| 0 <= p < b ==> #[trigger] slots@[p] is Some,
            forall|p: int| 0 <= p < b ==> base_cases@[p] == slots@[p]->0,
        decreases degree - b,
    {
        match slots[b] {
            Some(v) => {
                base_cases.push(v);
            },
            None => {
                proof {
                    assert(slots@[b as int] is None);
                    assert(!(forall|p: int|
                        0 <= p < slots@.len() ==> #[trigger] slots@[p] is Some));
                    assert(unwrap_slots_of(slots@) == Err::<Seq<u64>, _>(
                        ParseRecurrenceError::NoBaseCase,
                    ));
                }
                return Err(ParseRecurrenceError::NoBaseCase);
            },
        }
        b = b + 1;
    }
    proof {
        assert(unwrap_slots_of(slots@) is Ok);
        assert(base_cases@ =~= unwrap_slots_of(slots@)->Ok_0);
    }
    Ok(RecurrenceRelation::new(base_cases, recurrence))
}

/// A failed scan of a prefix keeps the whole scan failed.
proof fn lemma_scan_err(eqs: Seq<Seq<char>>, k: nat, m: nat)
    requires
        k <= m,
        scan_equations_of(eqs, k) is Err,
    ensures
        scan_equations_of(eqs, m) == scan_equations_of(eqs, k),
    decreases m,
{
    if m > k {
        lemma_scan_err(eqs, k, (m - 1) as nat);
    }
}

/// A failed fill of a prefix keeps the whole fill failed.
proof fn lemma_fill_err(pairs: Seq<(u64, usize)>, k: nat, m: nat, slots: Seq<Option<u64>>)
    requires
        k <= m,
        fill_base_cases_of(pairs, k, slots) is Err,
    ensures
        fill_base_cases_of(pairs, m, slots) == fill_base_cases_of(pairs, k, slots),
    decreases m,
{
    if m > k {
        lemma_fill_err(pairs, k, (m - 1) as nat, slots);
    }
}

} // verus!
