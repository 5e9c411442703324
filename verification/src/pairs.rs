//! The pair schedule: every unordered index pair over the candidate list,
//! generated in canonical order.

use vstd::prelude::*;

verus! {

/// One row of the canonical schedule: the pairs `(0, j)` through `(j-1, j)`.
pub open spec fn pair_row(j: nat) -> Seq<(usize, usize)> {
    Seq::new(j, |i: int| (i as usize, j as usize))
}

/// The canonical schedule over `n` candidates: every `(i, j)` with
/// `i < j < n`, ordered by increasing `j`, then increasing `i`.
pub open spec fn pairs_spec(n: nat) -> Seq<(usize, usize)>
    decreases n,
{
    if n == 0 {
        Seq::empty()
    } else {
        pairs_spec((n - 1) as nat) + pair_row((n - 1) as nat)
    }
}

/// The canonical schedule over `n` candidates has n·(n−1)/2 entries.
pub proof fn lemma_pairs_spec_len(n: nat)
    ensures
        2 * pairs_spec(n).len() == n * (n - 1),
        pairs_spec(n).len() == n * (n - 1) / 2,
    decreases n,
{
    if n > 0 {
        let m = (n - 1) as nat;
        lemma_pairs_spec_len(m);
        assert(pairs_spec(n).len() == pairs_spec(m).len() + m);
        assert(2 * pairs_spec(n).len() == n * (n - 1)) by (nonlinear_arith)
            requires
                n >= 1,
                m == n - 1,
                pairs_spec(n).len() == pairs_spec(m).len() + m,
                2 * pairs_spec(m).len() == m * (m - 1),
        ;
    } else {
        assert(pairs_spec(n).len() == 0);
        assert(n * (n - 1) == 0);
    }
    assert(n * (n - 1) / 2 == pairs_spec(n).len()) by (nonlinear_arith)
        requires
            2 * pairs_spec(n).len() == n * (n - 1),
    ;
}

/// Every entry of the canonical schedule is a pair `(i, j)` with `i < j < n`.
pub proof fn lemma_pairs_spec_bounds(n: nat)
    requires
        n <= usize::MAX,
    ensures
        forall|k: int|
            0 <= k < pairs_spec(n).len() ==> (#[trigger] pairs_spec(n)[k]).0 < pairs_spec(n)[k].1
                < n,
    decreases n,
{
    if n > 0 {
        let m = (n - 1) as nat;
        lemma_pairs_spec_bounds(m);
        assert forall|k: int| 0 <= k < pairs_spec(n).len() implies (#[trigger] pairs_spec(n)[k]).0
            < pairs_spec(n)[k].1 < n by {
            if k < pairs_spec(m).len() {
                assert(pairs_spec(n)[k] == pairs_spec(m)[k]);
            } else {
                assert(pairs_spec(n)[k] == pair_row(m)[k - pairs_spec(m).len()]);
            }
        }
    }
}

/// All unordered index pairs over `matrix_size` candidates, in canonical
/// order.
pub fn index_pairs(matrix_size: usize) -> (r: Vec<(usize, usize)>)
    ensures
        r@ == pairs_spec(matrix_size as nat),
{
    let mut indices: Vec<(usize, usize)> = Vec::new();
    let mut j: usize = 0;
    while j < matrix_size
        invariant
            j <= matrix_size,
            indices@ == pairs_spec(j as nat),
        decreases matrix_size - j,
    {
        let mut i: usize = 0;
        while i < j
            invariant
                i <= j,
                indices@ == pairs_spec(j as nat) + pair_row(j as nat).take(i as int),
            decreases j - i,
        {
            let ghost before = indices@;
            indices.push((i, j));
            proof {
                assert(pair_row(j as nat).take(i + 1) =~= pair_row(j as nat).take(i as int).push(
                    (i, j),
                ));
                assert(indices@ =~= pairs_spec(j as nat) + pair_row(j as nat).take(i + 1));
            }
            i = i + 1;
        }
        proof {
            assert(pair_row(j as nat).take(j as int) =~= pair_row(j as nat));
            assert(pairs_spec((j + 1) as nat) == pairs_spec(j as nat) + pair_row(j as nat));
        }
        j = j + 1;
    }
    proof {
        assert(indices@ =~= pairs_spec(matrix_size as nat));
    }
    indices
}

} // verus!
