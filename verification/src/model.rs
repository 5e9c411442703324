//! The comparison engine: it owns the candidate list, the pair schedule and
//! the cursor, records outcomes, and yields the ranked result.

use vstd::prelude::*;
use vstd::string::StringExecFns;

use crate::order::lemma_load_names_ordered;
use crate::order::load_names;
use crate::order::no_adjacent_ci_dup;
use crate::order::prepare_names;
use crate::order::sorted_names;
use crate::pairs::index_pairs;
use crate::pairs::lemma_pairs_spec_bounds;
use crate::pairs::lemma_pairs_spec_len;
use crate::pairs::pairs_spec;
use crate::params::Parameters;
use crate::params::Side;
use crate::ranking::sort_by_score_desc;
use crate::ranking::sort_desc;
use crate::ranking::sorted_desc;
use crate::text::join_lines;
use crate::text::str_views;

verus! {

/// The names of the candidates, in list order.
pub open spec fn names_of(s: Seq<Parameters>) -> Seq<Seq<char>> {
    Seq::new(s.len(), |i: int| s[i].name@)
}

/// Whether every candidate's score is zero: no round is mid-flight.
pub open spec fn all_scores_zero(s: Seq<Parameters>) -> bool {
    forall|i: int| 0 <= i < s.len() ==> (#[trigger] s[i]).score == 0
}

/// The same candidates with every score reset to zero.
pub open spec fn zero_scores(s: Seq<Parameters>) -> Seq<Parameters> {
    Seq::new(s.len(), |i: int| Parameters { name: s[i].name, score: 0u32 })
}

/// Where the cursor stands after one advance over a schedule of `len`
/// entries: one step forward, or exhausted past the last entry; an
/// exhausted cursor stays exhausted.
pub open spec fn step_cursor(cursor: Option<usize>, len: nat) -> Option<usize> {
    match cursor {
        None => None,
        Some(p) => if p + 1 < len {
            Some((p + 1) as usize)
        } else {
            None
        },
    }
}

/// The snapshot the cursor points at: the two candidates of the current
/// schedule entry, in (left, right) order, or nothing when exhausted.
pub open spec fn current_pair_spec(
    params: Seq<Parameters>,
    pairs: Seq<(usize, usize)>,
    cursor: Option<usize>,
) -> Option<(Parameters, Parameters)> {
    match cursor {
        None => None,
        Some(p) => Some(
            (params[pairs[p as int].0 as int], params[pairs[p as int].1 as int]),
        ),
    }
}

/// The candidate with `points` more score.
pub open spec fn bump(p: Parameters, points: u32) -> Parameters {
    Parameters { name: p.name, score: (p.score + points) as u32 }
}

/// The candidate list after the outcome of one pair is recorded: the
/// winning side's candidate gains the points; a tie changes nothing.
pub open spec fn record_spec(
    params: Seq<Parameters>,
    pair: (usize, usize),
    winner: Side,
    points: u32,
) -> Seq<Parameters> {
    match winner {
        Side::Lhs => params.update(pair.0 as int, bump(params[pair.0 as int], points)),
        Side::Rhs => params.update(pair.1 as int, bump(params[pair.1 as int], points)),
        Side::Other => params,
    }
}

/// Whether the winning score has room for the points to add.
pub open spec fn record_fits(
    params: Seq<Parameters>,
    pairs: Seq<(usize, usize)>,
    cursor: Option<usize>,
    winner: Side,
    points: u32,
) -> bool {
    match cursor {
        None => true,
        Some(p) => match winner {
            Side::Lhs => params[pairs[p as int].0 as int].score + points <= u32::MAX,
            Side::Rhs => params[pairs[p as int].1 as int].score + points <= u32::MAX,
            Side::Other => true,
        },
    }
}

/// The comparison engine: the loaded candidates, the schedule of index
/// pairs still presented in this order, and the cursor into it.
pub struct DecisionModel {
    pub parameters: Vec<Parameters>,
    pub indices: Vec<(usize, usize)>,
    pub current_index: Option<usize>,
}

impl DecisionModel {
    /// The schedule holds exactly the unordered pairs over the candidate
    /// list, every entry lies inside it, and the cursor, when set, points
    /// at a schedule entry.
    pub open spec fn wf(self) -> bool {
        &&& self.indices@.to_multiset() == pairs_spec(self.parameters@.len()).to_multiset()
        &&& forall|k: int|
            0 <= k < self.indices@.len() ==> (#[trigger] self.indices@[k]).0 < self.indices@[k].1
                < self.parameters@.len()
        &&& match self.current_index {
            Some(p) => p < self.indices@.len(),
            None => true,
        }
    }

    /// A fresh engine: no candidates, no schedule, cursor exhausted.
    pub fn new() -> (r: Self)
        ensures
            r.parameters@ == Seq::<Parameters>::empty(),
            r.indices@ == Seq::<(usize, usize)>::empty(),
            r.current_index is None,
            r.wf(),
    {
        let r = Self { parameters: Vec::new(), indices: Vec::new(), current_index: None };
        proof {
            assert(pairs_spec(0) =~= Seq::<(usize, usize)>::empty());
        }
        r
    }

    /// Empties the engine: candidates, schedule and cursor all cleared.
    pub fn reset(&mut self)
        ensures
            final(self).parameters@ == Seq::<Parameters>::empty(),
            final(self).indices@ == Seq::<(usize, usize)>::empty(),
            final(self).current_index is None,
            final(self).wf(),
    {
        self.parameters = Vec::new();
        self.indices = Vec::new();
        self.current_index = None;
        proof {
            assert(pairs_spec(0) =~= Seq::<(usize, usize)>::empty());
        }
    }

    /// Single-step, one-directional advance: moves the cursor to the next
    /// schedule entry, or exhausts it past the last one; a no-op when the
    /// cursor is already exhausted.
    pub fn move_to_next_pair(&mut self)
        requires
            old(self).wf(),
        ensures
            final(self).wf(),
            final(self).parameters == old(self).parameters,
            final(self).indices == old(self).indices,
            final(self).current_index == step_cursor(
                old(self).current_index,
                old(self).indices@.len(),
            ),
    {
        match self.current_index {
            Some(p) => {
                let len = self.indices.len();
                if p + 1 < len {
                    self.current_index = Some(p + 1);
                } else {
                    self.current_index = None;
                }
            },
            None => {},
        }
    }

    /// A snapshot copy of the two candidates of the current schedule entry,
    /// in (left, right) order, or nothing when the cursor is exhausted.
    /// Read-only: the engine is unchanged.
    pub fn get_current_pair(&mut self) -> (r: Option<(Parameters, Parameters)>)
        requires
            old(self).wf(),
        ensures
            *final(self) == *old(self),
            r == current_pair_spec(
                old(self).parameters@,
                old(self).indices@,
                old(self).current_index,
            ),
    {
        match self.current_index {
            None => None,
            Some(p) => {
                let (i, j) = self.indices[p];
                Some((self.parameters[i].clone(), self.parameters[j].clone()))
            },
        }
    }

    /// Adds the points to the candidate on the winning side of the current
    /// pair; a tie changes no score, and an exhausted cursor makes the whole
    /// call a no-op. Never advances the cursor, and never lowers a score.
    pub fn record_score_of_current_pair(&mut self, winner: Side, points_to_add: u32)
        requires
            old(self).wf(),
            record_fits(
                old(self).parameters@,
                old(self).indices@,
                old(self).current_index,
                winner,
                points_to_add,
            ),
        ensures
            final(self).wf(),
            final(self).indices == old(self).indices,
            final(self).current_index == old(self).current_index,
            final(self).parameters@ == match old(self).current_index {
                None => old(self).parameters@,
                Some(p) => record_spec(
                    old(self).parameters@,
                    old(self).indices@[p as int],
                    winner,
                    points_to_add,
                ),
            },
            final(self).parameters@.len() == old(self).parameters@.len(),
            forall|i: int|
                0 <= i < old(self).parameters@.len() ==> (#[trigger] final(self).parameters@[i]).score
                    >= old(self).parameters@[i].score && final(self).parameters@[i].name
                    == old(self).parameters@[i].name,
    {
        match self.current_index {
            Some(p) => {
                let (i, j) = self.indices[p];
                match winner {
                    Side::Lhs => {
                        let prev = self.parameters.remove(i);
                        self.parameters.insert(
                            i,
                            Parameters { name: prev.name, score: prev.score + points_to_add },
                        );
                        proof {
                            assert(self.parameters@ =~= old(self).parameters@.update(
                                i as int,
                                bump(old(self).parameters@[i as int], points_to_add),
                            ));
                        }
                    },
                    Side::Rhs => {
                        let prev = self.parameters.remove(j);
                        self.parameters.insert(
                            j,
                            Parameters { name: prev.name, score: prev.score + points_to_add },
                        );
                        proof {
                            assert(self.parameters@ =~= old(self).parameters@.update(
                                j as int,
                                bump(old(self).parameters@[j as int], points_to_add),
                            ));
                        }
                    },
                    Side::Other => {},
                }
            },
            None => {},
        }
    }

    /// Destructive reload: replaces the candidates with the cleaned-up names
    /// at score zero, rebuilds the schedule (shuffled when `randomize` is
    /// set, which changes presentation order only, never the pairing set),
    /// and rewinds the cursor, exhausted when fewer than two candidates
    /// remain.
    pub fn prepare_model(&mut self, param_list: &Vec<String>, randomize: bool)
        ensures
            final(self).wf(),
            names_of(final(self).parameters@) == load_names(str_views(param_list@)),
            sorted_names(names_of(final(self).parameters@)),
            no_adjacent_ci_dup(names_of(final(self).parameters@)),
            all_scores_zero(final(self).parameters@),
            !randomize ==> final(self).indices@ == pairs_spec(final(self).parameters@.len()),
            final(self).indices@.to_multiset() == pairs_spec(
                final(self).parameters@.len(),
            ).to_multiset(),
            final(self).current_index == if final(self).parameters@.len() > 1 {
                Some(0usize)
            } else {
                None::<usize>
            },
    {
        let names = prepare_names(param_list);
        let mut params: Vec<Parameters> = Vec::new();
        let mut i: usize = 0;
        while i < names.len()
            invariant
                i <= names@.len(),
                params@.len() == i,
                forall|j: int|
                    0 <= j < i ==> (#[trigger] params@[j]).name@ == names@[j]@ && params@[j].score
                        == 0,
            decreases names@.len() - i,
        {
            params.push(Parameters { name: names[i].clone(), score: 0 });
            i = i + 1;
        }
        proof {
            assert(names_of(params@) =~= str_views(names@));
            lemma_load_names_ordered(str_views(param_list@));
        }
        self.parameters = params;
        self.indices = index_pairs(self.parameters.len());
        let ghost n = self.parameters@.len();
        proof {
            lemma_pairs_spec_bounds(n);
        }
        if randomize {
            shuffle_pairs(&mut self.indices);
            proof {
                lemma_pairs_bounds_from_multiset(self.indices@, n);
            }
        }
        if self.parameters.len() > 1 {
            proof {
                lemma_schedule_len_from_multiset(self.indices@, n);
                assert(n * (n - 1) >= 2) by (nonlinear_arith)
                    requires
                        n >= 2,
                ;
            }
            self.current_index = Some(0);
        } else {
            self.current_index = None;
        }
    }

    /// Starts a round over the same candidates: zeroes every score in place
    /// and, when there is more than one candidate, rewinds the cursor to the
    /// start; with fewer it leaves the cursor untouched.
    pub fn reset_score_and_indices(&mut self)
        requires
            old(self).wf(),
        ensures
            final(self).wf(),
            final(self).indices == old(self).indices,
            final(self).parameters@ == zero_scores(old(self).parameters@),
            final(self).current_index == if old(self).parameters@.len() > 1 {
                Some(0usize)
            } else {
                old(self).current_index
            },
    {
        let n = self.parameters.len();
        let mut i: usize = 0;
        while i < n
            invariant
                i <= n,
                n == self.parameters@.len(),
                self.parameters@.len() == old(self).parameters@.len(),
                self.indices == old(self).indices,
                self.current_index == old(self).current_index,
                forall|j: int|
                    0 <= j < i ==> (#[trigger] self.parameters@[j]) == (Parameters {
                        name: old(self).parameters@[j].name,
                        score: 0u32,
                    }),
                forall|j: int|
                    i <= j < n ==> (#[trigger] self.parameters@[j]) == old(self).parameters@[j],
            decreases n - i,
        {
            let prev = self.parameters.remove(i);
            self.parameters.insert(i, Parameters { name: prev.name, score: 0 });
            i = i + 1;
        }
        proof {
            assert(self.parameters@ =~= zero_scores(old(self).parameters@));
        }
        if self.parameters.len() > 1 {
            proof {
                lemma_schedule_len_from_multiset(self.indices@, self.parameters@.len());
                assert(self.parameters@.len() * (self.parameters@.len() - 1) >= 2)
                    by (nonlinear_arith)
                    requires
                        self.parameters@.len() >= 2,
                ;
            }
            self.current_index = Some(0);
        }
    }

    /// Whether a round can start: at least two candidates, and no score
    /// recorded yet. Read-only: the engine is unchanged.
    pub fn is_model_ready_to_play(&mut self) -> (r: bool)
        ensures
            *final(self) == *old(self),
            r == (old(self).parameters@.len() >= 2 && all_scores_zero(old(self).parameters@)),
    {
        if self.parameters.len() < 2 {
            return false;
        }
        let mut i: usize = 0;
        while i < self.parameters.len()
            invariant
                *self == *old(self),
                i <= self.parameters@.len(),
                forall|j: int| 0 <= j < i ==> (#[trigger] self.parameters@[j]).score == 0,
            decreases self.parameters@.len() - i,
        {
            if self.parameters[i].score != 0 {
                return false;
            }
            i = i + 1;
        }
        true
    }

    /// The candidate names in list order, joined by single newlines with no
    /// trailing separator. Read-only: the engine is unchanged.
    pub fn get_parameters(&mut self) -> (r: String)
        ensures
            *final(self) == *old(self),
            r@ == join_lines(names_of(old(self).parameters@)),
    {
        let ghost names = names_of(self.parameters@);
        let mut out = String::new();
        let mut i: usize = 0;
        proof {
            assert(names.take(0) =~= Seq::<Seq<char>>::empty());
        }
        while i < self.parameters.len()
            invariant
                *self == *old(self),
                names == names_of(self.parameters@),
                i <= self.parameters@.len(),
                out@ == join_lines(names.take(i as int)),
            decreases self.parameters@.len() - i,
        {
            if i > 0 {
                out.append("\n");
            }
            out.append(self.parameters[i].name.as_str());
            proof {
                reveal_strlit("\n");
                assert("\n"@ =~= seq!['\n']);
                assert(names.take(i + 1).drop_last() =~= names.take(i as int));
                assert(names.take(i + 1).last() == names[i as int]);
            }
            i = i + 1;
        }
        proof {
            assert(names.take(self.parameters@.len() as int) =~= names);
        }
        out
    }

    /// A copy of the candidate list sorted by score descending; candidates
    /// with equal scores keep their list order. Read-only.
    pub fn sorted_by_score(&self) -> (r: Vec<Parameters>)
        ensures
            r@ == sort_desc(self.parameters@),
            sorted_desc(r@),
    {
        let mut copy: Vec<Parameters> = Vec::new();
        let mut i: usize = 0;
        proof {
            assert(self.parameters@.take(0) =~= Seq::<Parameters>::empty());
        }
        while i < self.parameters.len()
            invariant
                i <= self.parameters@.len(),
                copy@ == self.parameters@.take(i as int),
            decreases self.parameters@.len() - i,
        {
            copy.push(self.parameters[i].clone());
            proof {
                assert(self.parameters@.take(i + 1) =~= self.parameters@.take(i as int).push(
                    self.parameters@[i as int],
                ));
            }
            i = i + 1;
        }
        proof {
            assert(self.parameters@.take(self.parameters@.len() as int) =~= self.parameters@);
        }
        sort_by_score_desc(copy)
    }
}

/// Relies on `rand::seq::SliceRandom::shuffle` with `rand::thread_rng`: a
/// Fisher–Yates shuffle permutes the slice in place, so the entries are
/// rearranged but none is added, dropped or changed.
#[verifier::external_body]
fn shuffle_pairs(v: &mut Vec<(usize, usize)>)
    ensures
        final(v)@.len() == old(v)@.len(),
        final(v)@.to_multiset() == old(v)@.to_multiset(),
{
    let mut rng = rand::thread_rng();
    rand::seq::SliceRandom::shuffle(&mut v[..], &mut rng);
}

/// A sequence with the canonical schedule's contents has its length.
pub proof fn lemma_schedule_len_from_multiset(pairs: Seq<(usize, usize)>, n: nat)
    requires
        pairs.to_multiset() == pairs_spec(n).to_multiset(),
    ensures
        2 * pairs.len() == n * (n - 1),
        pairs.len() == n * (n - 1) / 2,
{
    broadcast use vstd::seq_lib::group_to_multiset_ensures;

    lemma_pairs_spec_len(n);
    assert(pairs.len() == pairs.to_multiset().len());
    assert(pairs_spec(n).len() == pairs_spec(n).to_multiset().len());
}

/// A sequence with the canonical schedule's contents has every entry inside
/// the candidate list, left index below right.
pub proof fn lemma_pairs_bounds_from_multiset(pairs: Seq<(usize, usize)>, n: nat)
    requires
        pairs.to_multiset() == pairs_spec(n).to_multiset(),
        n <= usize::MAX,
    ensures
        forall|k: int|
            0 <= k < pairs.len() ==> (#[trigger] pairs[k]).0 < pairs[k].1 < n,
{
    broadcast use vstd::seq_lib::group_to_multiset_ensures;

    lemma_pairs_spec_bounds(n);
    assert forall|k: int| 0 <= k < pairs.len() implies (#[trigger] pairs[k]).0 < pairs[k].1
        < n by {
        assert(pairs.contains(pairs[k]));
        assert(pairs.to_multiset().count(pairs[k]) > 0);
        assert(pairs_spec(n).contains(pairs[k]));
        let m = choose|m: int| 0 <= m < pairs_spec(n).len() && pairs_spec(n)[m] == pairs[k];
        assert(pairs_spec(n)[m].0 < pairs_spec(n)[m].1 < n);
    }
}

} // verus!
