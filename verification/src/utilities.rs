//! Tolerance comparisons over whole collections, for checking a closed
//! form against iteratively generated terms.

use crate::double::{within, within_of};
use crate::polynomial::{first_within, lemma_first_within_is, lemma_first_within_none};
use vstd::prelude::*;

verus! {

/// Whether two equally long vectors agree elementwise within the
/// tolerance.
pub open spec fn vec_within_of(a: Seq<u64>, b: Seq<u64>) -> bool {
    a.len() == b.len() && forall|i: int| 0 <= i < a.len() ==> #[trigger] within_of(a[i], b[i])
}

/// Whether two vectors of doubles have the same length and agree
/// elementwise within the tolerance.
pub fn vec_within(v1: &Vec<u64>, v2: &Vec<u64>) -> (r: bool)
    ensures
        r == vec_within_of(v1@, v2@),
{
    if v1.len() != v2.len() {
        return false;
    }
    let n = v1.len();
    let mut i: usize = 0;
    while i < n
        invariant
            n == v1@.len(),
            n == v2@.len(),
            i <= n,
            forall|k: int| 0 <= k < i ==> #[trigger] within_of(v1@[k], v2@[k]),
        decreases n - i,
    {
        if !within(v1[i], v2[i]) {
            return false;
        }
        i = i + 1;
    }
    true
}

/// How many flags are set.
pub open spec fn count_true(used: Seq<bool>) -> int
    decreases used.len(),
{
    if used.len() == 0 {
        0
    } else {
        (if used[0] {
            1int
        } else {
            0int
        }) + count_true(used.skip(1))
    }
}

/// The matching state after the first `k` pairs of `fc1` are looked up in
/// `fc2`: which entries of `fc2` are taken, or nothing once a pair found a
/// taken entry or one with another multiplicity. A pair within tolerance of
/// no entry is passed over.
pub open spec fn match_state(
    fc1: Seq<(u64, usize)>,
    fc2: Seq<(u64, usize)>,
    k: nat,
) -> Option<Seq<bool>>
    decreases k,
{
    if k == 0 {
        Some(Seq::new(fc2.len(), |i: int| false))
    } else {
        match match_state(fc1, fc2, (k - 1) as nat) {
            None => None,
            Some(used) => match first_within(fc2, fc1[k - 1].0) {
                None => Some(used),
                Some(j) => if fc1[k - 1].1 != fc2[j].1 || used[j] {
                    None
                } else {
                    Some(used.update(j, true))
                },
            },
        }
    }
}

/// Whether the two `(double, count)` collections pair off: every entry of
/// `fc1` takes the first entry of `fc2` within tolerance of it, no two take
/// the same one, the counts agree, and every entry of `fc2` is taken.
pub open spec fn float_counts_within_of(fc1: Seq<(u64, usize)>, fc2: Seq<(u64, usize)>) -> bool {
    match match_state(fc1, fc2, fc1.len()) {
        None => false,
        Some(used) => fc1.len() == fc2.len() && count_true(used) == fc1.len(),
    }
}

/// Setting a clear flag raises the count by one.
proof fn lemma_count_true_update(used: Seq<bool>, j: int)
    requires
        0 <= j < used.len(),
        !used[j],
    ensures
        count_true(used.update(j, true)) == count_true(used) + 1,
    decreases used.len(),
{
    let upd = used.update(j, true);
    if j == 0 {
        assert(upd.skip(1) =~= used.skip(1));
    } else {
        lemma_count_true_update(used.skip(1), j - 1);
        assert(upd.skip(1) =~= used.skip(1).update(j - 1, true));
        assert(upd[0] == used[0]);
    }
}

/// No more flags are set than there are.
proof fn lemma_count_true_le(used: Seq<bool>)
    ensures
        0 <= count_true(used) <= used.len(),
    decreases used.len(),
{
    if used.len() > 0 {
        lemma_count_true_le(used.skip(1));
    }
}

/// With every flag clear, nothing counts.
proof fn lemma_count_true_zero(used: Seq<bool>)
    requires
        forall|i: int| 0 <= i < used.len() ==> !used[i],
    ensures
        count_true(used) == 0,
    decreases used.len(),
{
    if used.len() > 0 {
        let rest = used.skip(1);
        assert(forall|i: int| 0 <= i < rest.len() ==> #[trigger] rest[i] == used[i + 1]);
        lemma_count_true_zero(rest);
    }
}

/// A failed match of a prefix keeps the whole match failed.
proof fn lemma_match_state_none(fc1: Seq<(u64, usize)>, fc2: Seq<(u64, usize)>, k: nat, m: nat)
    requires
        k <= m,
        match_state(fc1, fc2, k) is None,
    ensures
        match_state(fc1, fc2, m) is None,
    decreases m,
{
    if m > k {
        lemma_match_state_none(fc1, fc2, k, (m - 1) as nat);
    }
}

/// Whether two `(double, count)` collections hold the same values within
/// tolerance, with the same multiplicities: each entry of the first is
/// matched against the first unmatched entry of the second within
/// tolerance of it. Like the underlying tolerance, this is no equivalence
/// relation.
pub fn float_counts_within(fc1: &Vec<(u64, usize)>, fc2: &Vec<(u64, usize)>) -> (r: bool)
    ensures
        r == float_counts_within_of(fc1@, fc2@),
{
    let n2 = fc2.len();
    let mut used: Vec<bool> = Vec::new();
    let mut u: usize = 0;
    while u < n2
        invariant
            u <= n2,
            used@ == Seq::new(n2 as nat, |i: int| false).take(u as int),
        decreases n2 - u,
    {
        used.push(false);
        proof {
            assert(used@ =~= Seq::new(n2 as nat, |i: int| false).take(u + 1));
        }
        u = u + 1;
    }
    proof {
        assert(used@ =~= Seq::new(n2 as nat, |i: int| false));
        lemma_count_true_zero(used@);
    }
    let mut used_count: usize = 0;
    let n1 = fc1.len();
    let mut k: usize = 0;
    while k < n1
        invariant
            n1 == fc1@.len(),
            n2 == fc2@.len(),
            k <= n1,
            used@.len() == n2,
            match_state(fc1@, fc2@, k as nat) == Some(used@),
            used_count == count_true(used@),
        decreases n1 - k,
    {
        let x = fc1[k].0;
        let mut found = false;
        let mut j: usize = 0;
        while j < n2 && !found
            invariant
                n2 == fc2@.len(),
                j <= n2,
                !found ==> forall|p: int| 0 <= p < j ==> !within_of(x, fc2@[p].0),
                found ==> j >= 1 && j - 1 < n2 && within_of(x, fc2@[j - 1].0) && forall|p: int|
                    0 <= p < j - 1 ==> !within_of(x, fc2@[p].0),
            decreases n2 - j,
        {
            if within(x, fc2[j].0) {
                found = true;
            }
            j = j + 1;
        }
        if found {
            let at = j - 1;
            proof {
                lemma_first_within_is(fc2@, x, at as int);
            }
            if fc1[k].1 != fc2[at].1 || used[at] {
                proof {
                    lemma_match_state_none(fc1@, fc2@, (k + 1) as nat, fc1@.len() as nat);
                }
                return false;
            }
            proof {
                lemma_count_true_update(used@, at as int);
                lemma_count_true_le(used@.update(at as int, true));
            }
            used[at] = true;
            used_count = used_count + 1;
        } else {
            proof {
                lemma_first_within_none(fc2@, x);
            }
        }
        k = k + 1;
    }
    let r = n1 == n2 && used_count == n1;
    proof {
        lemma_count_true_le(used@);
    }
    r
}

} // verus!
