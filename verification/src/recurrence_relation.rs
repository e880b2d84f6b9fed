//! Linear recurrence relations with constant coefficients: the
//! characteristic polynomial, the generalized-Vandermonde system that fits a
//! closed form to the base cases, and the direct iterative term generator.

use crate::double::{
    add_bits, add_of, double_of_int, int_to_double_bits, mul_bits, mul_of, pow_bits, pow_of,
    NEG_ONE_BITS, ONE_BITS, ZERO_BITS,
};
use crate::polynomial::{
    cluster_of, degree_of, lemma_cluster_count, multiplicities_positive, sum_multiplicities,
    Polynomial,
};
use crate::recurrence_solution::{solution_terms_of, RecurrenceSolution};
use vstd::prelude::*;

verus! {

/// The shape of the inputs is wrong: a recurrence relation needs one base
/// case per recurrence coefficient, and at least one of each.
#[derive(Debug, PartialEq, Eq, Structural, Clone, Copy)]
pub enum ShapeError {
    /// The base cases and the recurrence coefficients differ in number.
    LengthMismatch,
    /// No base case and no coefficient were given.
    Empty,
}

/// A linear recurrence relation with constant coefficients. Both sequences
/// hold bit patterns of doubles; `recurrence_coefficients[i - 1]` multiplies
/// `f(n - i)`, and `base_cases[i]` is `f(i)`. Both have the same length, the
/// relation's degree, which is at least one.
#[derive(Debug)]
pub struct RecurrenceRelation {
    base_cases: Vec<u64>,
    recurrence_coefficients: Vec<u64>,
}

/// The coefficients of the characteristic polynomial of a recurrence with
/// the given coefficients: the reversed, negated recurrence coefficients,
/// closed with a leading one. This encodes
/// `f(n) - c_1 f(n-1) - ... - c_d f(n-d) = 0` as a monic polynomial.
pub open spec fn characteristic_of(cs: Seq<u64>) -> Seq<u64> {
    Seq::new(
        (cs.len() + 1) as nat,
        |i: int|
            if i < cs.len() {
                mul_of(NEG_ONE_BITS, cs[cs.len() - 1 - i])
            } else {
                ONE_BITS
            },
    )
}

/// Law: the characteristic polynomial's degree equals the recurrence's
/// degree — it has one coefficient more than the recurrence, and its degree
/// is one less than that.
pub proof fn lemma_characteristic_degree(rel: &RecurrenceRelation)
    requires
        rel.wf(),
    ensures
        degree_of(characteristic_of(rel.coefficients_spec())) == rel.degree_spec(),
{
}

/// Law: the root multiplicities sum to the degree — the companion matrix of
/// the characteristic polynomial is square of side `degree()`, so its
/// eigenvalues number `degree()`, and clustering them loses none and
/// invents none.
pub proof fn lemma_root_count(rel: &RecurrenceRelation, eigenvalues: Seq<u64>)
    requires
        rel.wf(),
        eigenvalues.len() == rel.degree_spec(),
        eigenvalues.len() <= usize::MAX,
    ensures
        sum_multiplicities(cluster_of(eigenvalues)) == rel.degree_spec(),
{
    lemma_cluster_count(eigenvalues);
}

/// The column block a root with its multiplicity contributes to row `n` of
/// the coefficient-fitting system: `multiplicity` entries, the `i`-th being
/// `root^n * n^i`.
pub open spec fn system_block(rc: (u64, usize), n: u64) -> Seq<u64> {
    Seq::new(
        rc.1 as nat,
        |i: int| mul_of(pow_of(rc.0, n as nat), pow_of(double_of_int(n), i as nat)),
    )
}

/// Row `n` of the coefficient-fitting system: the blocks of all roots, in
/// order.
pub open spec fn system_row(roots: Seq<(u64, usize)>, n: u64) -> Seq<u64>
    decreases roots.len(),
{
    if roots.len() == 0 {
        Seq::empty()
    } else {
        system_block(roots[0], n) + system_row(roots.skip(1), n)
    }
}

/// The first `k` rows of the coefficient-fitting system, flattened in
/// row-major order.
pub open spec fn system_rows(roots: Seq<(u64, usize)>, k: nat) -> Seq<u64>
    decreases k,
{
    if k == 0 {
        Seq::empty()
    } else {
        system_rows(roots, (k - 1) as nat) + system_row(roots, (k - 1) as u64)
    }
}

/// A row holds one entry per root counted with multiplicity.
pub proof fn lemma_system_row_len(roots: Seq<(u64, usize)>, n: u64)
    requires
        multiplicities_positive(roots),
    ensures
        system_row(roots, n).len() == sum_multiplicities(roots),
    decreases roots.len(),
{
    if roots.len() > 0 {
        assert(multiplicities_positive(roots.skip(1))) by {
            assert(forall|k: int|
                0 <= k < roots.skip(1).len() ==> #[trigger] roots.skip(1)[k] == roots[k + 1]);
        }
        lemma_system_row_len(roots.skip(1), n);
    }
}

/// A row extends by the new root's block when a root is appended.
pub proof fn lemma_system_row_push(roots: Seq<(u64, usize)>, rc: (u64, usize), n: u64)
    ensures
        system_row(roots.push(rc), n) == system_row(roots, n) + system_block(rc, n),
    decreases roots.len(),
{
    let pushed = roots.push(rc);
    assert(pushed.len() > 0);
    assert(system_row(pushed, n) == system_block(pushed[0], n) + system_row(pushed.skip(1), n));
    if roots.len() == 0 {
        assert(pushed[0] == rc);
        assert(pushed.skip(1) =~= Seq::<(u64, usize)>::empty());
        assert(system_row(pushed.skip(1), n) == Seq::<u64>::empty());
        assert(system_row(roots, n) == Seq::<u64>::empty());
        assert(system_row(pushed, n) =~= system_row(roots, n) + system_block(rc, n));
    } else {
        lemma_system_row_push(roots.skip(1), rc, n);
        assert(pushed[0] == roots[0]);
        assert(pushed.skip(1) =~= roots.skip(1).push(rc));
        assert(system_row(roots, n) == system_block(roots[0], n) + system_row(roots.skip(1), n));
        assert(system_row(pushed, n) =~= system_row(roots, n) + system_block(rc, n));
    }
}

/// The accumulated dot product of the last `k` of `terms`, most recent
/// first, with the first `k` of `cs`:
/// `0.0 + terms[len-1] * cs[0] + ... + terms[len-k] * cs[k-1]`.
pub open spec fn dot_rev_prefix(terms: Seq<u64>, cs: Seq<u64>, k: nat) -> u64
    decreases k,
{
    if k == 0 {
        ZERO_BITS
    } else {
        add_of(
            dot_rev_prefix(terms, cs, (k - 1) as nat),
            mul_of(terms[terms.len() - k], cs[k - 1]),
        )
    }
}

/// The next term the recurrence produces after `terms`: the dot product of
/// the most recent terms, most recent first, with the recurrence
/// coefficients.
pub open spec fn next_term_of(terms: Seq<u64>, cs: Seq<u64>) -> u64 {
    dot_rev_prefix(terms, cs, vstd::math::min(terms.len() as int, cs.len() as int) as nat)
}

impl RecurrenceRelation {
    /// The base cases, as bit patterns of doubles.
    pub closed spec fn base_cases_spec(&self) -> Seq<u64> {
        self.base_cases@
    }

    /// The recurrence coefficients, as bit patterns of doubles;
    /// `coefficients_spec()[i - 1]` multiplies `f(n - i)`.
    pub closed spec fn coefficients_spec(&self) -> Seq<u64> {
        self.recurrence_coefficients@
    }

    /// The relation's degree.
    pub open spec fn degree_spec(&self) -> int {
        self.base_cases_spec().len() as int
    }

    /// As many base cases as coefficients, and at least one of each.
    pub open spec fn wf(&self) -> bool {
        &&& self.base_cases_spec().len() == self.coefficients_spec().len()
        &&& self.base_cases_spec().len() >= 1
    }

    /// Creates a recurrence relation from its base cases and coefficients.
    /// For the recurrence `f(n) = 3 f(n-1) + 5 f(n-2)` with `f(0) = 0` and
    /// `f(1) = 1`, the base cases are `[0, 1]` and the coefficients `[3, 5]`.
    pub fn new(base_cases: Vec<u64>, recurrence_coefficients: Vec<u64>) -> (r: RecurrenceRelation)
        requires
            base_cases@.len() == recurrence_coefficients@.len(),
            base_cases@.len() >= 1,
        ensures
            r.base_cases_spec() == base_cases@,
            r.coefficients_spec() == recurrence_coefficients@,
            r.wf(),
    {
        RecurrenceRelation { base_cases, recurrence_coefficients }
    }

    /// Creates a recurrence relation, rejecting inputs of the wrong shape:
    /// `Ok` exactly when the two sequences have the same nonzero length.
    pub fn try_new(base_cases: Vec<u64>, recurrence_coefficients: Vec<u64>) -> (r: Result<
        RecurrenceRelation,
        ShapeError,
    >)
        ensures
            match r {
                Ok(rel) => {
                    &&& base_cases@.len() == recurrence_coefficients@.len()
                    &&& base_cases@.len() >= 1
                    &&& rel.base_cases_spec() == base_cases@
                    &&& rel.coefficients_spec() == recurrence_coefficients@
                    &&& rel.wf()
                },
                Err(ShapeError::LengthMismatch) => base_cases@.len()
                    != recurrence_coefficients@.len(),
                Err(ShapeError::Empty) => base_cases@.len() == recurrence_coefficients@.len()
                    && base_cases@.len() == 0,
            },
    {
        if base_cases.len() != recurrence_coefficients.len() {
            Err(ShapeError::LengthMismatch)
        } else if base_cases.len() == 0 {
            Err(ShapeError::Empty)
        } else {
            Ok(RecurrenceRelation { base_cases, recurrence_coefficients })
        }
    }

    /// The degree of the recurrence: the number of base cases.
    pub fn degree(&self) -> (r: usize)
        ensures
            r == self.degree_spec(),
    {
        self.base_cases.len()
    }

    /// The base cases, as bit patterns of doubles.
    pub fn base_cases(&self) -> (r: &Vec<u64>)
        ensures
            r@ == self.base_cases_spec(),
    {
        &self.base_cases
    }

    /// The recurrence coefficients, as bit patterns of doubles.
    pub fn recurrence_coefficients(&self) -> (r: &Vec<u64>)
        ensures
            r@ == self.coefficients_spec(),
    {
        &self.recurrence_coefficients
    }

    /// The characteristic polynomial of the recurrence: the negated
    /// coefficients in reverse order, closed with a leading one.
    pub fn characteristic_polynomial(&self) -> (r: Polynomial)
        requires
            self.wf(),
        ensures
            r@ == characteristic_of(self.coefficients_spec()),
            r.wf(),
            degree_of(r@) == self.degree_spec(),
    {
        let d = self.recurrence_coefficients.len();
        let mut coefficients: Vec<u64> = Vec::new();
        let mut k: usize = 0;
        while k < d
            invariant
                d == self.coefficients_spec().len(),
                k <= d,
                coefficients@ == characteristic_of(self.coefficients_spec()).take(k as int),
            decreases d - k,
        {
            coefficients.push(mul_bits(NEG_ONE_BITS, self.recurrence_coefficients[d - 1 - k]));
            proof {
                assert(coefficients@ =~= characteristic_of(self.coefficients_spec()).take(
                    k + 1,
                ));
            }
            k = k + 1;
        }
        coefficients.push(ONE_BITS);
        proof {
            assert(coefficients@ =~= characteristic_of(self.coefficients_spec()));
        }
        Polynomial::new(coefficients)
    }

    /// The generalized-Vandermonde system whose solution fits the closed
    /// form to the base cases, flattened in row-major order: row `n` holds,
    /// for each root `r` of multiplicity `m`, the entries `r^n * n^i` for
    /// `i` in `0..m`. With the multiplicities summing to the degree it is a
    /// square matrix of side `degree()`.
    pub fn solution_system(&self, roots: &Vec<(u64, usize)>) -> (r: Vec<u64>)
        requires
            multiplicities_positive(roots@),
        ensures
            r@ == system_rows(roots@, self.degree_spec() as nat),
            r@.len() == self.degree_spec() * sum_multiplicities(roots@),
    {
        let d = self.base_cases.len();
        let mut elements: Vec<u64> = Vec::new();
        proof {
            lemma_sum_system_rows_len(roots@, 0);
        }
        for n in 0..d
            invariant
                d == self.degree_spec(),
                multiplicities_positive(roots@),
                elements@ == system_rows(roots@, n as nat),
                elements@.len() == n * sum_multiplicities(roots@),
        {
            let x = int_to_double_bits(n as u64);
            let ghost row_start = elements@;
            let mut t: usize = 0;
            while t < roots.len()
                invariant
                    d == self.degree_spec(),
                    multiplicities_positive(roots@),
                    t <= roots@.len(),
                    n < d,
                    x == double_of_int(n as u64),
                    elements@ == row_start + system_row(roots@.take(t as int), n as u64),
                decreases roots@.len() - t,
            {
                let (root, count) = (roots[t].0, roots[t].1);
                let root_pow = pow_bits(root, n as u64);
                let ghost block_start = elements@;
                let mut i: usize = 0;
                while i < count
                    invariant
                        i <= count,
                        x == double_of_int(n as u64),
                        root == roots@[t as int].0,
                        count == roots@[t as int].1,
                        t < roots@.len(),
                        root_pow == pow_of(root, n as nat),
                        elements@ == block_start + Seq::new(
                            i as nat,
                            |ii: int|
                                mul_of(pow_of(root, n as nat), pow_of(double_of_int(n as u64), ii as nat)),
                        ),
                    decreases count - i,
                {
                    elements.push(mul_bits(root_pow, pow_bits(x, i as u64)));
                    proof {
                        assert(elements@ =~= block_start + Seq::new(
                            (i + 1) as nat,
                            |ii: int|
                                mul_of(pow_of(root, n as nat), pow_of(double_of_int(n as u64), ii as nat)),
                        ));
                    }
                    i = i + 1;
                }
                proof {
                    assert(elements@ =~= block_start + system_block(roots@[t as int], n as u64));
                    assert(roots@.take(t + 1) =~= roots@.take(t as int).push(roots@[t as int]));
                    lemma_system_row_push(roots@.take(t as int), roots@[t as int], n as u64);
                    assert(elements@ =~= row_start + system_row(roots@.take(t + 1), n as u64));
                }
                t = t + 1;
            }
            proof {
                assert(roots@.take(roots@.len() as int) =~= roots@);
                assert(elements@ =~= system_rows(roots@, (n + 1) as nat));
                lemma_sum_system_rows_len(roots@, (n + 1) as nat);
            }
        }
        proof {
            lemma_sum_system_rows_len(roots@, d as nat);
        }
        elements
    }

    /// Packages the solved coefficients into a solution: the flat `alphas`
    /// vector is cut into one block per root, the block of a root of
    /// multiplicity `m` holding the `m` coefficients of its
    /// polynomial-in-`n`, of degree `m - 1`.
    pub fn assemble_solution(&self, roots: &Vec<(u64, usize)>, alphas: &Vec<u64>) -> (r:
        RecurrenceSolution)
        requires
            multiplicities_positive(roots@),
            sum_multiplicities(roots@) == alphas@.len(),
        ensures
            r@ == solution_terms_of(roots@, alphas@),
            r.wf(),
    {
        let alen = alphas.len();
        let mut terms: Vec<(Polynomial, u64)> = Vec::new();
        let mut index: usize = 0;
        let mut t: usize = 0;
        proof {
            assert(roots@.take(0) =~= Seq::<(u64, usize)>::empty());
        }
        while t < roots.len()
            invariant
                multiplicities_positive(roots@),
                sum_multiplicities(roots@) == alphas@.len(),
                alen == alphas@.len(),
                t <= roots@.len(),
                index == sum_multiplicities(roots@.take(t as int)),
                index <= alen,
                terms@.map_values(|pr: (Polynomial, u64)| (pr.0@, pr.1)) == solution_terms_of(
                    roots@.take(t as int),
                    alphas@,
                ),
                forall|p: int| 0 <= p < terms@.len() ==> #[trigger] terms@[p].0.wf(),
            decreases roots@.len() - t,
        {
            let (root, count) = (roots[t].0, roots[t].1);
            proof {
                lemma_sum_take_step(roots@, t as int);
                lemma_sum_split(roots@, t + 1);
                lemma_sum_skip_nonneg(roots@, t + 1);
                assert(index + count <= alen);
            }
            let mut coefficients: Vec<u64> = Vec::new();
            let mut i: usize = 0;
            while i < count
                invariant
                    i <= count,
                    count == roots@[t as int].1,
                    t < roots@.len(),
                    alen == alphas@.len(),
                    index + count <= alen,
                    coefficients@ == alphas@.subrange(index as int, index + i),
                decreases count - i,
            {
                coefficients.push(alphas[index + i]);
                proof {
                    assert(coefficients@ =~= alphas@.subrange(index as int, index + i + 1));
                }
                i = i + 1;
            }
            proof {
                assert(count >= 1);
            }
            terms.push((Polynomial::new(coefficients), root));
            proof {
                assert(alphas@.subrange(index as int, index + count) =~= alphas@.skip(
                    index as int,
                ).take(count as int));
                assert(multiplicities_positive(roots@.take(t as int))) by {
                    assert(forall|k: int|
                        0 <= k < t ==> #[trigger] roots@.take(t as int)[k] == roots@[k]);
                }
                lemma_solution_terms_push(roots@.take(t as int), roots@[t as int], alphas@);
                assert(roots@.take(t + 1) =~= roots@.take(t as int).push(roots@[t as int]));
                assert(terms@.map_values(|pr: (Polynomial, u64)| (pr.0@, pr.1))
                    =~= solution_terms_of(roots@.take(t + 1), alphas@));
            }
            index = index + count;
            t = t + 1;
        }
        proof {
            assert(roots@.take(roots@.len() as int) =~= roots@);
        }
        let solution = RecurrenceSolution::new(terms);
        proof {
            assert forall|p: int| 0 <= p < solution@.len() implies #[trigger] solution@[p].0.len()
                >= 1 by {
                assert(solution@[p] == (terms@[p].0@, terms@[p].1));
                assert(terms@[p].0.wf());
            }
        }
        solution
    }

    /// The first `n` terms of the recurrence, by direct iteration: the base
    /// cases verbatim, then each further term as the dot product of the most
    /// recent `degree()` terms, most recent first, with the coefficients.
    /// Independent of root finding, this is the reference the closed form is
    /// checked against.
    pub fn get_terms(&self, n: usize) -> (r: Vec<u64>)
        requires
            self.wf(),
        ensures
            r@.len() == n,
            forall|i: int|
                0 <= i < n && i < self.degree_spec() ==> r@[i] == self.base_cases_spec()[i],
            forall|i: int|
                self.degree_spec() <= i < n ==> r@[i] == next_term_of(
                    r@.take(i),
                    self.coefficients_spec(),
                ),
    {
        let d = self.base_cases.len();
        let mut terms: Vec<u64> = Vec::new();
        let head = if n < d {
            n
        } else {
            d
        };
        let mut i: usize = 0;
        while i < head
            invariant
                head <= d,
                head <= n,
                d == self.degree_spec(),
                self.wf(),
                i <= head,
                terms@ == self.base_cases_spec().take(i as int),
            decreases head - i,
        {
            terms.push(self.base_cases[i]);
            proof {
                assert(terms@ =~= self.base_cases_spec().take(i + 1));
            }
            i = i + 1;
        }
        let mut k: usize = head;
        while k < n
            invariant
                d == self.degree_spec(),
                self.wf(),
                k <= n,
                k >= d || k == n,
                terms@.len() == k,
                forall|i: int|
                    0 <= i < k && i < d ==> terms@[i] == self.base_cases_spec()[i],
                forall|i: int|
                    d <= i < k ==> terms@[i] == next_term_of(
                        terms@.take(i),
                        self.coefficients_spec(),
                    ),
            decreases n - k,
        {
            let mut new_term: u64 = ZERO_BITS;
            let mut j: usize = 0;
            while j < d
                invariant
                    d == self.coefficients_spec().len(),
                    self.wf(),
                    d <= terms@.len(),
                    j <= d,
                    new_term == dot_rev_prefix(terms@, self.coefficients_spec(), j as nat),
                decreases d - j,
            {
                new_term = add_bits(
                    new_term,
                    mul_bits(terms[terms.len() - 1 - j], self.recurrence_coefficients[j]),
                );
                j = j + 1;
            }
            let ghost before = terms@;
            terms.push(new_term);
            proof {
                assert(terms@.take(k as int) =~= before);
                assert(vstd::math::min(before.len() as int, self.coefficients_spec().len() as int)
                    == d);
                assert(forall|i: int|
                    d <= i < k ==> #[trigger] terms@.take(i) =~= before.take(i));
            }
            k = k + 1;
        }
        terms
    }
}

impl core::str::FromStr for RecurrenceRelation {
    type Err = crate::recurrence_relation_parser::ParseRecurrenceError;

    /// Parses a relation as `parse_recurrence_relation` does.
    fn from_str(s: &str) -> Result<
        RecurrenceRelation,
        crate::recurrence_relation_parser::ParseRecurrenceError,
    > {
        crate::recurrence_relation_parser::parse_recurrence_relation(s)
    }
}

impl PartialEq for RecurrenceRelation {
    /// Two relations are equal when base cases and coefficients hold the
    /// same bit patterns.
    fn eq(&self, other: &RecurrenceRelation) -> (r: bool) {
        crate::polynomial::vecs_equal(&self.base_cases, &other.base_cases)
            && crate::polynomial::vecs_equal(
            &self.recurrence_coefficients,
            &other.recurrence_coefficients,
        )
    }
}

impl vstd::std_specs::cmp::PartialEqSpecImpl for RecurrenceRelation {
    open spec fn obeys_eq_spec() -> bool {
        true
    }

    open spec fn eq_spec(&self, other: &RecurrenceRelation) -> bool {
        self.base_cases_spec() == other.base_cases_spec() && self.coefficients_spec()
            == other.coefficients_spec()
    }
}

/// The flattened system's length is the row count times the row length.
pub proof fn lemma_sum_system_rows_len(roots: Seq<(u64, usize)>, k: nat)
    requires
        multiplicities_positive(roots),
    ensures
        system_rows(roots, k).len() == k * sum_multiplicities(roots),
    decreases k,
{
    if k == 0 {
        assert(system_rows(roots, 0) =~= Seq::empty());
    } else {
        lemma_sum_system_rows_len(roots, (k - 1) as nat);
        lemma_system_row_len(roots, (k - 1) as u64);
        assert((k - 1) * sum_multiplicities(roots) + sum_multiplicities(roots) == k
            * sum_multiplicities(roots)) by (nonlinear_arith);
    }
}

/// The multiplicities of a prefix and of the rest sum to the whole.
pub proof fn lemma_sum_split(roots: Seq<(u64, usize)>, t: int)
    requires
        0 <= t <= roots.len(),
    ensures
        sum_multiplicities(roots.take(t)) + sum_multiplicities(roots.skip(t))
            == sum_multiplicities(roots),
    decreases t,
{
    if t == 0 {
        assert(roots.take(0) =~= Seq::<(u64, usize)>::empty());
        assert(roots.skip(0) =~= roots);
    } else {
        lemma_sum_take_step(roots, t - 1);
        lemma_sum_split(roots, t - 1);
        assert(roots.skip(t - 1).skip(1) =~= roots.skip(t));
        assert(roots.skip(t - 1)[0] == roots[t - 1]);
    }
}

/// Taking one more element adds its multiplicity to the prefix sum.
pub proof fn lemma_sum_take_step(roots: Seq<(u64, usize)>, t: int)
    requires
        0 <= t < roots.len(),
    ensures
        sum_multiplicities(roots.take(t + 1)) == sum_multiplicities(roots.take(t)) + roots[t].1,
    decreases roots.len(),
{
    crate::polynomial::lemma_push_sum(roots.take(t), roots[t]);
    assert(roots.take(t + 1) =~= roots.take(t).push(roots[t]));
}

/// A suffix of nonnegative multiplicities sums to something nonnegative.
pub proof fn lemma_sum_skip_nonneg(roots: Seq<(u64, usize)>, t: int)
    requires
        0 <= t <= roots.len(),
    ensures
        sum_multiplicities(roots.skip(t)) >= 0,
{
    crate::polynomial::lemma_sum_nonneg(roots.skip(t));
}

/// Appending a root appends its coefficient block to the solution's terms.
pub proof fn lemma_solution_terms_push(
    roots: Seq<(u64, usize)>,
    rc: (u64, usize),
    alphas: Seq<u64>,
)
    requires
        multiplicities_positive(roots),
        sum_multiplicities(roots) + rc.1 <= alphas.len(),
    ensures
        solution_terms_of(roots.push(rc), alphas) == solution_terms_of(roots, alphas) + seq![
            (alphas.skip(sum_multiplicities(roots)).take(rc.1 as int), rc.0),
        ],
    decreases roots.len(),
{
    let pushed = roots.push(rc);
    crate::polynomial::lemma_sum_nonneg(roots);
    assert(pushed.len() > 0);
    assert(solution_terms_of(pushed, alphas) == seq![
        (alphas.take(pushed[0].1 as int), pushed[0].0),
    ] + solution_terms_of(pushed.skip(1), alphas.skip(pushed[0].1 as int)));
    if roots.len() == 0 {
        assert(pushed[0] == rc);
        assert(pushed.skip(1) =~= Seq::<(u64, usize)>::empty());
        assert(solution_terms_of(pushed.skip(1), alphas.skip(rc.1 as int)) == Seq::<
            (Seq<u64>, u64),
        >::empty());
        assert(solution_terms_of(roots, alphas) == Seq::<(Seq<u64>, u64)>::empty());
        assert(alphas.skip(0) =~= alphas);
        assert(solution_terms_of(pushed, alphas) =~= solution_terms_of(roots, alphas) + seq![
            (alphas.skip(0).take(rc.1 as int), rc.0),
        ]);
    } else {
        let r0 = roots[0].1 as int;
        let rest = roots.skip(1);
        assert(multiplicities_positive(rest)) by {
            assert(forall|k: int| 0 <= k < rest.len() ==> #[trigger] rest[k] == roots[k + 1]);
        }
        crate::polynomial::lemma_sum_nonneg(rest);
        assert(sum_multiplicities(roots) == roots[0].1 + sum_multiplicities(rest));
        assert(r0 <= alphas.len());
        lemma_solution_terms_push(rest, rc, alphas.skip(r0));
        assert(pushed[0] == roots[0]);
        assert(pushed.skip(1) =~= rest.push(rc));
        assert(alphas.skip(r0).skip(sum_multiplicities(rest)) =~= alphas.skip(
            sum_multiplicities(roots),
        ));
        assert(solution_terms_of(roots, alphas) == seq![
            (alphas.take(r0), roots[0].0),
        ] + solution_terms_of(rest, alphas.skip(r0)));
        assert(solution_terms_of(pushed, alphas) =~= solution_terms_of(roots, alphas) + seq![
            (alphas.skip(sum_multiplicities(roots)).take(rc.1 as int), rc.0),
        ]);
    }
}

} // verus!
