//! Single-variable polynomials over IEEE 754 doubles, and the clustering of
//! companion-matrix eigenvalues into roots with multiplicity.

use crate::double::{
    add_bits, add_of, div_bits, div_of, double_of_int, int_to_double_bits, mul_bits, mul_of,
    pow_bits, pow_of, within, within_of, NEG_ONE_BITS, ONE_BITS, ZERO_BITS,
};
use vstd::prelude::*;

verus! {

/// A polynomial, held by its coefficients: index 0 is the constant term and
/// the last index is the leading term. Every coefficient is the bit pattern
/// of a double. A polynomial holds at least one coefficient.
#[derive(Debug)]
pub struct Polynomial {
    coefficients: Vec<u64>,
}

impl View for Polynomial {
    type V = Seq<u64>;

    closed spec fn view(&self) -> Seq<u64> {
        self.coefficients@
    }
}

/// The degree of a polynomial with the given coefficients.
pub open spec fn degree_of(cs: Seq<u64>) -> int {
    cs.len() - 1
}

/// The entry of the companion matrix at row `i`, column `j`: ones on the
/// subdiagonal, the negated normalized coefficients in the last column,
/// zeroes elsewhere.
pub open spec fn companion_entry(cs: Seq<u64>, i: int, j: int) -> u64 {
    if j == degree_of(cs) - 1 {
        mul_of(NEG_ONE_BITS, div_of(cs[i], cs[degree_of(cs)]))
    } else if i == j + 1 {
        ONE_BITS
    } else {
        ZERO_BITS
    }
}

/// Row `i` of the companion matrix.
pub open spec fn companion_row(cs: Seq<u64>, i: int) -> Seq<u64> {
    Seq::new(degree_of(cs) as nat, |j: int| companion_entry(cs, i, j))
}

/// The first `k` rows of the companion matrix, flattened in row-major order.
pub open spec fn companion_rows(cs: Seq<u64>, k: nat) -> Seq<u64>
    decreases k,
{
    if k == 0 {
        Seq::empty()
    } else {
        companion_rows(cs, (k - 1) as nat) + companion_row(cs, k - 1)
    }
}

/// The whole companion matrix, flattened in row-major order.
pub open spec fn companion_of(cs: Seq<u64>) -> Seq<u64> {
    companion_rows(cs, degree_of(cs) as nat)
}

/// The evaluation of the first `k` terms of the polynomial at `x`, as the
/// left-to-right sum `0.0 + cs[0] * x^0 + ... + cs[k-1] * x^(k-1)`.
pub open spec fn poly_eval_prefix(cs: Seq<u64>, x: u64, k: nat) -> u64
    decreases k,
{
    if k == 0 {
        ZERO_BITS
    } else {
        add_of(
            poly_eval_prefix(cs, x, (k - 1) as nat),
            mul_of(cs[k - 1], pow_of(x, (k - 1) as nat)),
        )
    }
}

/// The evaluation of the polynomial at `x`.
pub open spec fn poly_eval_of(cs: Seq<u64>, x: u64) -> u64 {
    poly_eval_prefix(cs, x, cs.len())
}

impl Polynomial {
    /// Creates a polynomial from its coefficients, the constant term first.
    pub fn new(coefficients: Vec<u64>) -> (r: Polynomial)
        requires
            coefficients@.len() >= 1,
        ensures
            r@ == coefficients@,
    {
        Polynomial { coefficients }
    }

    /// At least one coefficient is present.
    pub open spec fn wf(&self) -> bool {
        self@.len() >= 1
    }

    /// The polynomial's degree: one less than the number of coefficients.
    pub fn degree(&self) -> (r: usize)
        requires
            self.wf(),
        ensures
            r == degree_of(self@),
    {
        self.coefficients.len() - 1
    }

    /// The coefficients, the constant term first.
    pub fn coefficients(&self) -> (r: &Vec<u64>)
        ensures
            r@ == self@,
    {
        &self.coefficients
    }

    /// The companion matrix of the polynomial, flattened in row-major order:
    /// a square matrix of side `degree()` with ones on the subdiagonal and
    /// `-coefficients[i] / coefficients[degree()]` as the last column. The
    /// caller must keep the leading coefficient away from zero for the
    /// matrix to be meaningful.
    pub fn companion_matrix(&self) -> (r: Vec<u64>)
        requires
            self.wf(),
        ensures
            r@ == companion_of(self@),
            r@.len() == degree_of(self@) * degree_of(self@),
    {
        let d = self.degree();
        let mut elements: Vec<u64> = Vec::new();
        proof {
            assert(elements@ =~= companion_rows(self@, 0));
        }
        for i in 0..d
            invariant
                d == degree_of(self@),
                self.wf(),
                elements@ == companion_rows(self@, i as nat),
                elements@.len() == i * d,
        {
            let ghost row_start = elements@;
            for j in 0..(d - 1)
                invariant
                    d == degree_of(self@),
                    self.wf(),
                    i < d,
                    elements@ == row_start + Seq::new(
                        j as nat,
                        |jj: int| companion_entry(self@, i as int, jj),
                    ),
            {
                if i == j + 1 {
                    elements.push(ONE_BITS);
                } else {
                    elements.push(ZERO_BITS);
                }
                proof {
                    assert(elements@ =~= row_start + Seq::new(
                        (j + 1) as nat,
                        |jj: int| companion_entry(self@, i as int, jj),
                    ));
                }
            }
            let quotient = div_bits(self.coefficients[i], self.coefficients[d]);
            elements.push(mul_bits(NEG_ONE_BITS, quotient));
            proof {
                assert(elements@ =~= row_start + companion_row(self@, i as int));
                assert(elements@ =~= companion_rows(self@, (i + 1) as nat));
                lemma_companion_rows_len(self@, (i + 1) as nat);
            }
        }
        proof {
            lemma_companion_rows_len(self@, degree_of(self@) as nat);
        }
        elements
    }

    /// Evaluates the polynomial at the integer `n`:
    /// `sum of coefficients[k] * n^k`.
    pub fn evaluate(&self, n: u32) -> (r: u64)
        ensures
            r == poly_eval_of(self@, double_of_int(n as u64)),
    {
        let x = int_to_double_bits(n as u64);
        let mut res: u64 = ZERO_BITS;
        let mut k: usize = 0;
        while k < self.coefficients.len()
            invariant
                k <= self@.len(),
                x == double_of_int(n as u64),
                res == poly_eval_prefix(self@, x, k as nat),
            decreases self@.len() - k,
        {
            res = add_bits(res, mul_bits(self.coefficients[k], pow_bits(x, k as u64)));
            k = k + 1;
        }
        res
    }
}

/// The index of the first cluster whose representative the eigenvalue `x`
/// lies within tolerance of, if any.
pub open spec fn first_within(clusters: Seq<(u64, usize)>, x: u64) -> Option<int>
    decreases clusters.len(),
{
    if clusters.len() == 0 {
        None
    } else if within_of(x, clusters[0].0) {
        Some(0int)
    } else {
        match first_within(clusters.skip(1), x) {
            Some(j) => Some(j + 1),
            None => None,
        }
    }
}

/// One step of the greedy clustering scan: the first cluster within
/// tolerance of `x` gains one count, and where there is none a new cluster
/// `(x, 1)` opens at the end.
pub open spec fn clusters_after(clusters: Seq<(u64, usize)>, x: u64) -> Seq<(u64, usize)> {
    match first_within(clusters, x) {
        Some(j) => clusters.update(j, (clusters[j].0, (clusters[j].1 + 1) as usize)),
        None => clusters.push((x, 1usize)),
    }
}

/// The clusters that the greedy left-to-right scan of the eigenvalue
/// sequence `es` produces, in first-occurrence order.
pub open spec fn cluster_of(es: Seq<u64>) -> Seq<(u64, usize)>
    decreases es.len(),
{
    if es.len() == 0 {
        Seq::empty()
    } else {
        clusters_after(cluster_of(es.drop_last()), es.last())
    }
}

/// The sum of the clusters' multiplicities.
pub open spec fn sum_multiplicities(clusters: Seq<(u64, usize)>) -> int
    decreases clusters.len(),
{
    if clusters.len() == 0 {
        0
    } else {
        clusters[0].1 + sum_multiplicities(clusters.skip(1))
    }
}

/// No cluster's representative lies within tolerance of an earlier one, in
/// the orientation the scan tests.
pub open spec fn reps_separated(clusters: Seq<(u64, usize)>) -> bool {
    forall|p: int, q: int|
        0 <= p < q < clusters.len() ==> !within_of(clusters[q].0, clusters[p].0)
}

/// Every cluster counts at least one eigenvalue.
pub open spec fn multiplicities_positive(clusters: Seq<(u64, usize)>) -> bool {
    forall|p: int| 0 <= p < clusters.len() ==> #[trigger] clusters[p].1 >= 1
}

/// What `first_within` finds is the first match.
pub proof fn lemma_first_within_props(clusters: Seq<(u64, usize)>, x: u64)
    ensures
        match first_within(clusters, x) {
            Some(j) => 0 <= j < clusters.len() && within_of(x, clusters[j].0) && forall|k: int|
                0 <= k < j ==> !within_of(x, clusters[k].0),
            None => forall|k: int| 0 <= k < clusters.len() ==> !within_of(x, clusters[k].0),
        },
    decreases clusters.len(),
{
    if clusters.len() > 0 && !within_of(x, clusters[0].0) {
        let rest = clusters.skip(1);
        lemma_first_within_props(rest, x);
        assert(forall|k: int| 0 <= k < rest.len() ==> #[trigger] rest[k] == clusters[k + 1]);
        match first_within(rest, x) {
            Some(j) => {
                assert(first_within(clusters, x) == Some(j + 1));
                assert(clusters[j + 1].0 == rest[j].0);
                assert forall|k: int| 1 <= k < j + 1 implies !within_of(x, clusters[k].0) by {
                    assert(rest[k - 1] == clusters[k]);
                    assert(!within_of(x, rest[k - 1].0));
                }
            },
            None => {
                assert forall|k: int| 1 <= k < clusters.len() implies !within_of(
                    x,
                    clusters[k].0,
                ) by {
                    assert(rest[k - 1] == clusters[k]);
                    assert(!within_of(x, rest[k - 1].0));
                }
            },
        }
    }
}

/// A match at `j` with no earlier match pins `first_within` down.
pub proof fn lemma_first_within_is(clusters: Seq<(u64, usize)>, x: u64, j: int)
    requires
        0 <= j < clusters.len(),
        within_of(x, clusters[j].0),
        forall|k: int| 0 <= k < j ==> !within_of(x, clusters[k].0),
    ensures
        first_within(clusters, x) == Some(j),
    decreases j,
{
    if j > 0 {
        lemma_first_within_is(clusters.skip(1), x, j - 1);
    }
}

/// No match anywhere means `first_within` finds none.
pub proof fn lemma_first_within_none(clusters: Seq<(u64, usize)>, x: u64)
    requires
        forall|k: int| 0 <= k < clusters.len() ==> !within_of(x, clusters[k].0),
    ensures
        first_within(clusters, x) is None,
    decreases clusters.len(),
{
    if clusters.len() > 0 {
        lemma_first_within_none(clusters.skip(1), x);
    }
}

/// Each cluster's multiplicity is bounded by the sum of all of them.
pub proof fn lemma_count_le_sum(clusters: Seq<(u64, usize)>, j: int)
    requires
        0 <= j < clusters.len(),
        multiplicities_positive(clusters),
    ensures
        clusters[j].1 <= sum_multiplicities(clusters),
    decreases clusters.len(),
{
    lemma_sum_nonneg(clusters.skip(1));
    if j > 0 {
        lemma_count_le_sum(clusters.skip(1), j - 1);
    }
}

/// With every multiplicity nonnegative, so is the sum.
pub proof fn lemma_sum_nonneg(clusters: Seq<(u64, usize)>)
    ensures
        sum_multiplicities(clusters) >= 0,
    decreases clusters.len(),
{
    if clusters.len() > 0 {
        lemma_sum_nonneg(clusters.skip(1));
    }
}

/// One scan step adds exactly one to the sum of multiplicities.
pub proof fn lemma_step_sum(clusters: Seq<(u64, usize)>, x: u64)
    requires
        match first_within(clusters, x) {
            Some(j) => clusters[j].1 < usize::MAX,
            None => true,
        },
    ensures
        sum_multiplicities(clusters_after(clusters, x)) == sum_multiplicities(clusters) + 1,
    decreases clusters.len(),
{
    lemma_first_within_props(clusters, x);
    match first_within(clusters, x) {
        Some(j) => {
            if j == 0 {
                assert(clusters_after(clusters, x).skip(1) =~= clusters.skip(1));
            } else {
                lemma_step_sum(clusters.skip(1), x);
                assert(first_within(clusters.skip(1), x) == Some(j - 1));
                assert(clusters_after(clusters, x).skip(1) =~= clusters_after(
                    clusters.skip(1),
                    x,
                ));
            }
        },
        None => {
            lemma_push_sum(clusters, (x, 1usize));
        },
    }
}

/// Appending a cluster adds its multiplicity to the sum.
pub proof fn lemma_push_sum(clusters: Seq<(u64, usize)>, c: (u64, usize))
    ensures
        sum_multiplicities(clusters.push(c)) == sum_multiplicities(clusters) + c.1,
    decreases clusters.len(),
{
    let pushed = clusters.push(c);
    assert(pushed.len() == clusters.len() + 1);
    assert(pushed[clusters.len() as int] == c);
    if clusters.len() == 0 {
        assert(pushed.skip(1) =~= Seq::<(u64, usize)>::empty());
        assert(pushed[0] == c);
        assert(sum_multiplicities(pushed) == pushed[0].1 + sum_multiplicities(pushed.skip(1)));
    } else {
        lemma_push_sum(clusters.skip(1), c);
        assert(pushed.skip(1) =~= clusters.skip(1).push(c));
        assert(pushed[0] == clusters[0]);
        assert(sum_multiplicities(pushed) == pushed[0].1 + sum_multiplicities(pushed.skip(1)));
    }
}

/// Law: clustering loses no eigenvalue and invents none — the sum of the
/// multiplicities over the clusters equals the number of eigenvalues
/// scanned. Applied to the eigenvalues of a degree-`d` characteristic
/// polynomial's companion matrix, of which there are `d`, it says that the
/// root multiplicities of the polynomial sum to its degree.
pub proof fn lemma_cluster_count(es: Seq<u64>)
    requires
        es.len() <= usize::MAX,
    ensures
        sum_multiplicities(cluster_of(es)) == es.len(),
        multiplicities_positive(cluster_of(es)),
    decreases es.len(),
{
    if es.len() > 0 {
        lemma_cluster_count(es.drop_last());
        let prev = cluster_of(es.drop_last());
        let x = es.last();
        lemma_first_within_props(prev, x);
        match first_within(prev, x) {
            Some(j) => {
                lemma_count_le_sum(prev, j);
                lemma_step_sum(prev, x);
            },
            None => {
                lemma_step_sum(prev, x);
            },
        }
    }
}

/// Law: distinct clusters stay apart — no representative lies within the
/// clustering tolerance of an earlier representative, so no two clusters
/// are mutually mergeable.
pub proof fn lemma_cluster_separated(es: Seq<u64>)
    ensures
        reps_separated(cluster_of(es)),
    decreases es.len(),
{
    if es.len() > 0 {
        lemma_cluster_separated(es.drop_last());
        let prev = cluster_of(es.drop_last());
        let x = es.last();
        lemma_first_within_props(prev, x);
        match first_within(prev, x) {
            Some(j) => {
                assert(forall|p: int|
                    0 <= p < prev.len() ==> clusters_after(prev, x)[p].0 == prev[p].0);
            },
            None => {},
        }
    }
}

/// Clusters the eigenvalues of a companion matrix into `(root,
/// multiplicity)` pairs: a single left-to-right scan in which each
/// eigenvalue joins the first cluster whose representative it lies within
/// tolerance of, or opens a new cluster of multiplicity one. Cluster order
/// follows first occurrence. This greedy scan is a known approximation: it
/// is not robust against genuinely distinct roots closer together than the
/// tolerance.
pub fn cluster_eigenvalues(eigenvalues: &Vec<u64>) -> (r: Vec<(u64, usize)>)
    ensures
        r@ == cluster_of(eigenvalues@),
        sum_multiplicities(r@) == eigenvalues@.len(),
        multiplicities_positive(r@),
        reps_separated(r@),
{
    let n = eigenvalues.len();
    let mut clusters: Vec<(u64, usize)> = Vec::new();
    proof {
        assert(eigenvalues@.take(0) =~= Seq::empty());
        lemma_cluster_count(eigenvalues@.take(0));
    }
    for i in 0..n
        invariant
            n == eigenvalues@.len(),
            clusters@ == cluster_of(eigenvalues@.take(i as int)),
            sum_multiplicities(clusters@) == i,
            multiplicities_positive(clusters@),
    {
        let x = eigenvalues[i];
        let mut found = false;
        let mut j: usize = 0;
        while j < clusters.len() && !found
            invariant
                j <= clusters@.len(),
                !found ==> forall|k: int| 0 <= k < j ==> !within_of(x, clusters@[k].0),
                found ==> j >= 1 && j - 1 < clusters@.len() && within_of(
                    x,
                    clusters@[j - 1].0,
                ) && forall|k: int| 0 <= k < j - 1 ==> !within_of(x, clusters@[k].0),
            decreases clusters@.len() - j,
        {
            if within(x, clusters[j].0) {
                found = true;
            }
            j = j + 1;
        }
        proof {
            assert(eigenvalues@.take(i + 1).drop_last() =~= eigenvalues@.take(i as int));
            assert(eigenvalues@.take(i + 1).last() == x);
        }
        if found {
            let at = j - 1;
            proof {
                lemma_first_within_is(clusters@, x, at as int);
                lemma_count_le_sum(clusters@, at as int);
                lemma_sum_nonneg(clusters@);
                lemma_step_sum(clusters@, x);
            }
            let root = clusters[at].0;
            let count = clusters[at].1;
            clusters[at] = (root, count + 1);
        } else {
            proof {
                lemma_first_within_none(clusters@, x);
                lemma_step_sum(clusters@, x);
            }
            clusters.push((x, 1));
        }
    }
    proof {
        assert(eigenvalues@.take(n as int) =~= eigenvalues@);
        lemma_cluster_count(eigenvalues@);
        lemma_cluster_separated(eigenvalues@);
    }
    clusters
}

/// The rendering of the polynomial's `k` highest terms, highest first:
/// `coefficient`, `n^`, the exponent, and a space, for each term.
pub open spec fn rendered_poly(cs: Seq<u64>, k: nat) -> Seq<char>
    decreases k,
{
    if k == 0 {
        Seq::empty()
    } else {
        crate::double::decimal_of(cs[k - 1]) + "n^"@ + crate::text::dec_digits((k - 1) as nat)
            + " "@ + rendered_poly(cs, (k - 1) as nat)
    }
}

/// The rendering of the whole polynomial, highest term first.
pub open spec fn poly_rendering(cs: Seq<u64>) -> Seq<char> {
    rendered_poly(cs, cs.len())
}

impl Polynomial {
    /// Renders the polynomial in the variable `n`, highest term first:
    /// each term as its coefficient, `n^` and the exponent, separated by
    /// spaces.
    pub fn render(&self) -> (r: String)
        ensures
            r@ == poly_rendering(self@),
    {
        let mut out = String::new();
        let mut k = self.coefficients.len();
        while k > 0
            invariant
                k <= self@.len(),
                poly_rendering(self@) == out@ + rendered_poly(self@, k as nat),
            decreases k,
        {
            out.append(crate::double::decimal_string(self.coefficients[k - 1]).as_str());
            out.append("n^");
            out.append(crate::text::decimal_u64((k - 1) as u64).as_str());
            out.append(" ");
            proof {
                assert(poly_rendering(self@) =~= out@ + rendered_poly(self@, (k - 1) as nat));
            }
            k = k - 1;
        }
        proof {
            assert(out@ =~= poly_rendering(self@));
        }
        out
    }
}

/// Whether two vectors hold the same bit patterns.
pub fn vecs_equal(a: &Vec<u64>, b: &Vec<u64>) -> (r: bool)
    ensures
        r == (a@ == b@),
{
    if a.len() != b.len() {
        return false;
    }
    let n = a.len();
    let mut i: usize = 0;
    while i < n
        invariant
            n == a@.len(),
            n == b@.len(),
            i <= n,
            forall|k: int| 0 <= k < i ==> a@[k] == b@[k],
        decreases n - i,
    {
        if a[i] != b[i] {
            return false;
        }
        i = i + 1;
    }
    proof {
        assert(a@ =~= b@);
    }
    true
}

impl PartialEq for Polynomial {
    /// Two polynomials are equal when they hold the same coefficient bit
    /// patterns.
    fn eq(&self, other: &Polynomial) -> (r: bool) {
        vecs_equal(&self.coefficients, &other.coefficients)
    }
}

impl vstd::std_specs::cmp::PartialEqSpecImpl for Polynomial {
    open spec fn obeys_eq_spec() -> bool {
        true
    }

    open spec fn eq_spec(&self, other: &Polynomial) -> bool {
        self@ == other@
    }
}

/// The number of rows times the side gives the flattened length.
pub proof fn lemma_companion_rows_len(cs: Seq<u64>, k: nat)
    requires
        cs.len() >= 1,
    ensures
        companion_rows(cs, k).len() == k * degree_of(cs),
    decreases k,
{
    if k == 0 {
        assert(companion_rows(cs, 0) =~= Seq::empty());
    } else {
        lemma_companion_rows_len(cs, (k - 1) as nat);
        assert(companion_rows(cs, k) == companion_rows(cs, (k - 1) as nat) + companion_row(
            cs,
            k - 1,
        ));
        assert(companion_row(cs, k - 1).len() == degree_of(cs));
        assert((k - 1) * degree_of(cs) + degree_of(cs) == k * degree_of(cs)) by (nonlinear_arith);
    }
}

} // verus!
