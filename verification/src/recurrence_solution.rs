//! The closed form of a solved recurrence: one polynomial-in-`n`
//! coefficient per distinct root `r`, standing for `sum of P_r(n) * r^n`.

use crate::double::{
    add_bits, add_of, double_of_int, mul_bits, mul_of, pow_bits, pow_of, ZERO_BITS,
};
use crate::polynomial::{poly_eval_of, Polynomial};
use vstd::prelude::*;

verus! {

/// The closed-form solution of a recurrence relation: for each distinct
/// root, the polynomial-in-`n` that multiplies `root^n`, a polynomial of
/// degree one less than the root's multiplicity.
#[derive(Debug)]
pub struct RecurrenceSolution {
    terms: Vec<(Polynomial, u64)>,
}

/// The per-root coefficient blocks of the closed form: the flat `alphas`
/// vector cut into one block per root, each block as long as its root's
/// multiplicity.
pub open spec fn solution_terms_of(roots: Seq<(u64, usize)>, alphas: Seq<u64>) -> Seq<
    (Seq<u64>, u64),
>
    decreases roots.len(),
{
    if roots.len() == 0 {
        Seq::empty()
    } else {
        seq![(alphas.take(roots[0].1 as int), roots[0].0)] + solution_terms_of(
            roots.skip(1),
            alphas.skip(roots[0].1 as int),
        )
    }
}

/// The evaluation of the first `k` terms of the closed form at index `n`,
/// as the left-to-right sum
/// `0.0 + P_0(n) * r_0^n + ... + P_{k-1}(n) * r_{k-1}^n`.
pub open spec fn solution_eval_prefix(terms: Seq<(Seq<u64>, u64)>, n: u64, k: nat) -> u64
    decreases k,
{
    if k == 0 {
        ZERO_BITS
    } else {
        add_of(
            solution_eval_prefix(terms, n, (k - 1) as nat),
            mul_of(poly_eval_of(terms[k - 1].0, double_of_int(n)), pow_of(terms[k - 1].1, n as nat)),
        )
    }
}

/// The evaluation of the whole closed form at index `n`.
pub open spec fn solution_eval_of(terms: Seq<(Seq<u64>, u64)>, n: u64) -> u64 {
    solution_eval_prefix(terms, n, terms.len())
}

/// The number of closed-form coefficients over all terms: the sum of each
/// coefficient polynomial's degree plus one.
pub open spec fn sum_coefficient_lengths(terms: Seq<(Seq<u64>, u64)>) -> int
    decreases terms.len(),
{
    if terms.len() == 0 {
        0
    } else {
        terms[0].0.len() + sum_coefficient_lengths(terms.skip(1))
    }
}

/// Law: a solution assembled from roots whose multiplicities sum to the
/// recurrence's degree holds exactly that many closed-form coefficients —
/// the sum of `coefficient_polynomial.degree() + 1` over its terms equals
/// the degree.
pub proof fn lemma_solution_size(roots: Seq<(u64, usize)>, alphas: Seq<u64>)
    requires
        crate::polynomial::multiplicities_positive(roots),
        crate::polynomial::sum_multiplicities(roots) <= alphas.len(),
    ensures
        sum_coefficient_lengths(solution_terms_of(roots, alphas))
            == crate::polynomial::sum_multiplicities(roots),
        solution_terms_of(roots, alphas).len() == roots.len(),
    decreases roots.len(),
{
    if roots.len() > 0 {
        let r0 = roots[0].1 as int;
        let rest = roots.skip(1);
        assert(crate::polynomial::multiplicities_positive(rest)) by {
            assert(forall|k: int|
                0 <= k < rest.len() ==> #[trigger] rest[k] == roots[k + 1]);
        }
        crate::polynomial::lemma_sum_nonneg(rest);
        assert(crate::polynomial::sum_multiplicities(roots) == roots[0].1
            + crate::polynomial::sum_multiplicities(rest));
        lemma_solution_size(rest, alphas.skip(r0));
        let terms = solution_terms_of(roots, alphas);
        assert(terms == seq![(alphas.take(r0), roots[0].0)] + solution_terms_of(
            rest,
            alphas.skip(r0),
        ));
        assert(terms.skip(1) =~= solution_terms_of(rest, alphas.skip(r0)));
        assert(terms[0].0.len() == r0);
    }
}

/// The rendering of the closed form from term `i` on: each term as its
/// coefficient polynomial in parentheses times its root raised to `n`,
/// joined by plus signs.
pub open spec fn rendered_terms(terms: Seq<(Seq<u64>, u64)>, i: nat) -> Seq<char>
    decreases terms.len() - i,
{
    if i >= terms.len() {
        Seq::empty()
    } else {
        "("@ + crate::polynomial::poly_rendering(terms[i as int].0) + ") * "@
            + crate::double::decimal_of(terms[i as int].1) + "^n"@ + (if i + 1 < terms.len() {
            " + "@
        } else {
            Seq::<char>::empty()
        }) + rendered_terms(terms, (i + 1) as nat)
    }
}

/// The rendering of the whole closed form.
pub open spec fn solution_rendering(terms: Seq<(Seq<u64>, u64)>) -> Seq<char> {
    rendered_terms(terms, 0)
}

impl View for RecurrenceSolution {
    type V = Seq<(Seq<u64>, u64)>;

    closed spec fn view(&self) -> Seq<(Seq<u64>, u64)> {
        self.terms@.map_values(|pr: (Polynomial, u64)| (pr.0@, pr.1))
    }
}

impl RecurrenceSolution {
    /// Every coefficient polynomial holds at least one coefficient.
    pub open spec fn wf(&self) -> bool {
        forall|p: int| 0 <= p < self@.len() ==> #[trigger] self@[p].0.len() >= 1
    }

    /// Creates a solution from its `(coefficient polynomial, root)` pairs.
    pub fn new(terms: Vec<(Polynomial, u64)>) -> (r: RecurrenceSolution)
        ensures
            r@ == terms@.map_values(|pr: (Polynomial, u64)| (pr.0@, pr.1)),
    {
        RecurrenceSolution { terms }
    }

    /// The `(coefficient polynomial, root)` pairs, one per distinct root.
    pub fn terms(&self) -> (r: &Vec<(Polynomial, u64)>)
        ensures
            r@.map_values(|pr: (Polynomial, u64)| (pr.0@, pr.1)) == self@,
    {
        &self.terms
    }

    /// Evaluates the closed form at index `n`:
    /// `sum of P_r(n) * r^n` over the solution's `(P_r, r)` pairs.
    pub fn evaluate(&self, n: u32) -> (r: u64)
        ensures
            r == solution_eval_of(self@, n as u64),
    {
        let mut res: u64 = ZERO_BITS;
        let mut k: usize = 0;
        while k < self.terms.len()
            invariant
                k <= self@.len(),
                self@.len() == self.terms@.len(),
                res == solution_eval_prefix(self@, n as u64, k as nat),
            decreases self@.len() - k,
        {
            let value = self.terms[k].0.evaluate(n);
            res = add_bits(res, mul_bits(value, pow_bits(self.terms[k].1, n as u64)));
            proof {
                assert(self@[k as int] == (self.terms@[k as int].0@, self.terms@[k as int].1));
            }
            k = k + 1;
        }
        res
    }

    /// The closed form evaluated at every index in `0..n`, in order.
    pub fn get_terms(&self, n: u32) -> (r: Vec<u64>)
        ensures
            r@.len() == n,
            forall|i: int| 0 <= i < n ==> r@[i] == solution_eval_of(self@, i as u64),
    {
        let mut res: Vec<u64> = Vec::new();
        let mut i: u32 = 0;
        while i < n
            invariant
                i <= n,
                res@.len() == i,
                forall|k: int| 0 <= k < i ==> res@[k] == solution_eval_of(self@, k as u64),
            decreases n - i,
        {
            res.push(self.evaluate(i));
            i = i + 1;
        }
        res
    }

    /// Renders the closed form: each term as its coefficient polynomial in
    /// parentheses times its root raised to `n`, joined by plus signs.
    pub fn render(&self) -> (r: String)
        ensures
            r@ == solution_rendering(self@),
    {
        let mut out = String::new();
        let n = self.terms.len();
        let mut i: usize = 0;
        while i < n
            invariant
                n == self.terms@.len(),
                n == self@.len(),
                i <= n,
                solution_rendering(self@) == out@ + rendered_terms(self@, i as nat),
            decreases n - i,
        {
            proof {
                assert(self@[i as int] == (self.terms@[i as int].0@, self.terms@[i as int].1));
            }
            out.append("(");
            out.append(self.terms[i].0.render().as_str());
            out.append(") * ");
            out.append(crate::double::decimal_string(self.terms[i].1).as_str());
            out.append("^n");
            if i + 1 < n {
                out.append(" + ");
            }
            proof {
                assert(solution_rendering(self@) =~= out@ + rendered_terms(
                    self@,
                    (i + 1) as nat,
                ));
            }
            i = i + 1;
        }
        proof {
            assert(out@ =~= solution_rendering(self@));
        }
        out
    }
}

/// The body of the demonstration web route: the rendering of the solved
/// Fibonacci relation, behind a fixed caption.
pub fn index(solution: &RecurrenceSolution) -> (r: String)
    ensures
        r@ == "solution to fibonacci: "@ + solution_rendering(solution@),
{
    let mut out = String::from_str("solution to fibonacci: ");
    out.append(solution.render().as_str());
    out
}

} // verus!
