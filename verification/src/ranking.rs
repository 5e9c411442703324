//! Ranking candidates by score: a stable insertion sort, descending, so
//! that candidates with equal scores keep their relative order.

use vstd::prelude::*;

use crate::params::Parameters;

verus! {

/// `x` placed into `s` after every entry whose score is at least `x`'s, so
/// an entry arriving later never overtakes an equal score.
pub open spec fn insert_desc(x: Parameters, s: Seq<Parameters>) -> Seq<Parameters>
    decreases s.len(),
{
    if s.len() == 0 {
        seq![x]
    } else if s[0].score >= x.score {
        seq![s[0]] + insert_desc(x, s.drop_first())
    } else {
        seq![x] + s
    }
}

/// Stable insertion sort by score, descending.
pub open spec fn sort_desc(s: Seq<Parameters>) -> Seq<Parameters>
    decreases s.len(),
{
    if s.len() == 0 {
        s
    } else {
        insert_desc(s.last(), sort_desc(s.drop_last()))
    }
}

/// Scores never increase along the sequence.
pub open spec fn sorted_desc(s: Seq<Parameters>) -> bool {
    forall|i: int, j: int| 0 <= i <= j < s.len() ==> s[i].score >= s[j].score
}

/// Insertion keeps every score bound that held of the inserted entry and of
/// the sequence.
proof fn lemma_insert_desc_score_bound(x: Parameters, s: Seq<Parameters>, c: u32)
    requires
        x.score <= c,
        forall|i: int| 0 <= i < s.len() ==> (#[trigger] s[i]).score <= c,
    ensures
        forall|i: int|
            0 <= i < insert_desc(x, s).len() ==> (#[trigger] insert_desc(x, s)[i]).score <= c,
    decreases s.len(),
{
    if s.len() == 0 {
        assert(insert_desc(x, s) == seq![x]);
    } else if s[0].score >= x.score {
        lemma_insert_desc_score_bound(x, s.drop_first(), c);
        let r = seq![s[0]] + insert_desc(x, s.drop_first());
        assert forall|i: int| 0 <= i < r.len() implies (#[trigger] r[i]).score <= c by {
            if i > 0 {
                assert(r[i] == insert_desc(x, s.drop_first())[i - 1]);
            }
        }
    } else {
        let r = seq![x] + s;
        assert forall|i: int| 0 <= i < r.len() implies (#[trigger] r[i]).score <= c by {
            if i > 0 {
                assert(r[i] == s[i - 1]);
            }
        }
    }
}

/// Inserting into a sorted sequence keeps it sorted.
proof fn lemma_insert_desc_sorted(x: Parameters, s: Seq<Parameters>)
    requires
        sorted_desc(s),
    ensures
        sorted_desc(insert_desc(x, s)),
    decreases s.len(),
{
    if s.len() == 0 {
    } else if s[0].score >= x.score {
        assert(sorted_desc(s.drop_first()));
        lemma_insert_desc_sorted(x, s.drop_first());
        lemma_insert_desc_score_bound(x, s.drop_first(), s[0].score);
        let r = seq![s[0]] + insert_desc(x, s.drop_first());
        assert forall|i: int, j: int| 0 <= i <= j < r.len() implies r[i].score >= r[j].score by {
            if i > 0 {
                assert(r[i] == insert_desc(x, s.drop_first())[i - 1]);
                assert(r[j] == insert_desc(x, s.drop_first())[j - 1]);
            } else if j > 0 {
                assert(r[j] == insert_desc(x, s.drop_first())[j - 1]);
            }
        }
    }
}

/// The stable descending sort really is sorted, whatever the scores are.
pub proof fn lemma_sort_desc_sorted(s: Seq<Parameters>)
    ensures
        sorted_desc(sort_desc(s)),
    decreases s.len(),
{
    if s.len() > 0 {
        lemma_sort_desc_sorted(s.drop_last());
        lemma_insert_desc_sorted(s.last(), sort_desc(s.drop_last()));
    }
}

/// Inserting at the position the scan found is the same as the recursive
/// insertion.
proof fn lemma_insert_desc_at(x: Parameters, s: Seq<Parameters>, k: int)
    requires
        0 <= k <= s.len(),
        forall|i: int| 0 <= i < k ==> (#[trigger] s[i]).score >= x.score,
        k < s.len() ==> s[k].score < x.score,
    ensures
        insert_desc(x, s) == s.insert(k, x),
    decreases k,
{
    if k == 0 {
        if s.len() == 0 {
            assert(insert_desc(x, s) =~= s.insert(0, x));
        } else {
            assert(seq![x] + s =~= s.insert(0, x));
        }
    } else {
        lemma_insert_desc_at(x, s.drop_first(), k - 1);
        assert(seq![s[0]] + s.drop_first().insert(k - 1, x) =~= s.insert(k, x));
    }
}

/// Places `x` into the sorted vector `sorted`, after every entry whose score
/// is at least `x`'s.
fn insert_by_score(sorted: &mut Vec<Parameters>, x: Parameters)
    ensures
        final(sorted)@ == insert_desc(x, old(sorted)@),
{
    let mut k: usize = 0;
    loop
        invariant_except_break
            k <= sorted@.len(),
            *sorted == *old(sorted),
            forall|i: int| 0 <= i < k ==> (#[trigger] sorted@[i]).score >= x.score,
        ensures
            *sorted == *old(sorted),
            k <= sorted@.len(),
            forall|i: int| 0 <= i < k ==> (#[trigger] sorted@[i]).score >= x.score,
            k < sorted@.len() ==> sorted@[k as int].score < x.score,
        decreases sorted@.len() - k,
    {
        if k == sorted.len() {
            break;
        }
        if sorted[k].score < x.score {
            break;
        }
        k = k + 1;
    }
    proof {
        lemma_insert_desc_at(x, sorted@, k as int);
    }
    sorted.insert(k, x);
}

/// Stable insertion sort by score, descending.
pub fn sort_by_score_desc(v: Vec<Parameters>) -> (r: Vec<Parameters>)
    ensures
        r@ == sort_desc(v@),
        sorted_desc(r@),
    decreases v@.len(),
{
    proof {
        lemma_sort_desc_sorted(v@);
    }
    let mut w = v;
    if w.len() == 0 {
        return w;
    }
    let x = w.pop().unwrap();
    proof {
        assert(w@ =~= v@.drop_last());
        assert(x == v@.last());
    }
    let mut sorted = sort_by_score_desc(w);
    insert_by_score(&mut sorted, x);
    sorted
}

} // verus!
