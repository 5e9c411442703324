//! The engine's general laws, stated once over the specification functions
//! that the public contracts use, and proved for every input.

use vstd::prelude::*;

use crate::clean::clean_spec;
use crate::model::current_pair_spec;
use crate::model::lemma_schedule_len_from_multiset;
use crate::model::record_spec;
use crate::model::step_cursor;
use crate::model::DecisionModel;
use crate::order::dedup_ci;
use crate::order::dedup_ci_rest;
use crate::order::insert_sorted;
use crate::order::load_names;
use crate::order::remove_empty;
use crate::order::sort_names;
use crate::params::Parameters;
use crate::params::Side;
use crate::ranking::sort_desc;
use crate::text::ci_eq;
use crate::text::join_lines;
use crate::text::lex_lt;
use crate::text::split_lines;
use crate::text::trim_spec;

verus! {

proof fn lemma_insert_sorted_len(x: Seq<char>, s: Seq<Seq<char>>)
    ensures
        insert_sorted(x, s).len() == s.len() + 1,
    decreases s.len(),
{
    if s.len() > 0 && !lex_lt(x, s[0]) {
        lemma_insert_sorted_len(x, s.drop_first());
    }
}

proof fn lemma_sort_names_len(s: Seq<Seq<char>>)
    ensures
        sort_names(s).len() == s.len(),
    decreases s.len(),
{
    if s.len() > 0 {
        lemma_sort_names_len(s.drop_last());
        lemma_insert_sorted_len(s.last(), sort_names(s.drop_last()));
    }
}

proof fn lemma_remove_empty_le(s: Seq<Seq<char>>)
    ensures
        remove_empty(s).len() <= s.len(),
    decreases s.len(),
{
    if s.len() > 0 {
        lemma_remove_empty_le(s.drop_first());
    }
}

proof fn lemma_dedup_rest_le(prev: Seq<char>, s: Seq<Seq<char>>)
    ensures
        dedup_ci_rest(prev, s).len() <= s.len(),
    decreases s.len(),
{
    if s.len() > 0 {
        if ci_eq(s[0], prev) {
            lemma_dedup_rest_le(prev, s.drop_first());
        } else {
            lemma_dedup_rest_le(s[0], s.drop_first());
        }
    }
}

proof fn lemma_dedup_le(s: Seq<Seq<char>>)
    ensures
        dedup_ci(s).len() <= s.len(),
{
    if s.len() > 0 {
        lemma_dedup_rest_le(s[0], s.drop_first());
    }
}

/// Whether two neighbouring names are equal up to ASCII case.
pub open spec fn has_adjacent_ci_dup(s: Seq<Seq<char>>) -> bool {
    exists|k: int| #![trigger s[k + 1], s[k]] 0 <= k && k + 1 < s.len() && ci_eq(s[k + 1], s[k])
}

proof fn lemma_dedup_rest_strict(prev: Seq<char>, s: Seq<Seq<char>>)
    requires
        (s.len() > 0 && ci_eq(s[0], prev)) || has_adjacent_ci_dup(s),
    ensures
        dedup_ci_rest(prev, s).len() < s.len(),
    decreases s.len(),
{
    if s.len() > 0 && ci_eq(s[0], prev) {
        lemma_dedup_rest_le(prev, s.drop_first());
    } else {
        let k = choose|k: int| #![trigger s[k + 1], s[k]] 0 <= k && k + 1 < s.len() && ci_eq(s[k + 1], s[k]);
        assert(s.drop_first()[k] == s[k + 1]);
        if k == 0 {
            assert(ci_eq(s.drop_first()[0], s[0]));
        } else {
            assert(s.drop_first()[k - 1] == s[k]);
            assert(has_adjacent_ci_dup(s.drop_first()));
        }
        lemma_dedup_rest_strict(s[0], s.drop_first());
    }
}

proof fn lemma_dedup_strict(s: Seq<Seq<char>>)
    requires
        has_adjacent_ci_dup(s),
    ensures
        dedup_ci(s).len() < s.len(),
{
    let k = choose|k: int| #![trigger s[k + 1], s[k]] 0 <= k && k + 1 < s.len() && ci_eq(s[k + 1], s[k]);
    assert(s.drop_first()[k] == s[k + 1]);
    if k == 0 {
        assert(ci_eq(s.drop_first()[0], s[0]));
    } else {
        assert(s.drop_first()[k - 1] == s[k]);
        assert(has_adjacent_ci_dup(s.drop_first()));
    }
    lemma_dedup_rest_strict(s[0], s.drop_first());
}

/// A load keeps at most as many candidates as it was given names.
pub proof fn lemma_load_names_count(names: Seq<Seq<char>>)
    ensures
        load_names(names).len() <= names.len(),
{
    lemma_sort_names_len(names);
    lemma_remove_empty_le(sort_names(names));
    lemma_dedup_le(remove_empty(sort_names(names)));
}

/// A load from raw text keeps at most as many candidates as the input has
/// non-blank trimmed lines.
pub proof fn lemma_load_count(input: Seq<char>)
    ensures
        load_names(clean_spec(input)).len() <= clean_spec(input).len(),
{
    lemma_load_names_count(clean_spec(input));
}

/// A load from raw text keeps strictly fewer candidates than the input has
/// non-blank trimmed lines when, after sorting and blank removal, two
/// neighbouring names are equal up to ASCII case.
pub proof fn lemma_load_count_strict(input: Seq<char>)
    requires
        has_adjacent_ci_dup(remove_empty(sort_names(clean_spec(input)))),
    ensures
        load_names(clean_spec(input)).len() < clean_spec(input).len(),
{
    let lines = clean_spec(input);
    lemma_sort_names_len(lines);
    lemma_remove_empty_le(sort_names(lines));
    lemma_dedup_strict(remove_empty(sort_names(lines)));
}

/// The schedule of a well-formed engine has exactly n·(n−1)/2 entries for
/// its n candidates; with fewer than two candidates it is empty.
pub proof fn lemma_schedule_size(m: DecisionModel)
    requires
        m.wf(),
    ensures
        m.indices@.len() == m.parameters@.len() * (m.parameters@.len() - 1) / 2,
        m.parameters@.len() <= 1 ==> m.indices@.len() == 0,
{
    lemma_schedule_len_from_multiset(m.indices@, m.parameters@.len());
    let n = m.parameters@.len();
    if n <= 1 {
        assert(n * (n - 1) == 0) by (nonlinear_arith)
            requires
                0 <= n <= 1,
        ;
    }
}

/// Where the cursor stands after `k` single-step advances.
pub open spec fn steps_cursor(cursor: Option<usize>, len: nat, k: nat) -> Option<usize>
    decreases k,
{
    if k == 0 {
        cursor
    } else {
        steps_cursor(step_cursor(cursor, len), len, (k - 1) as nat)
    }
}

proof fn lemma_steps_none(len: nat, k: nat)
    ensures
        steps_cursor(None, len, k) is None,
    decreases k,
{
    if k > 0 {
        lemma_steps_none(len, (k - 1) as nat);
    }
}

proof fn lemma_steps_from(p: usize, len: nat, k: nat)
    requires
        p < len,
        len <= usize::MAX,
    ensures
        steps_cursor(Some(p), len, k) == if p + k < len {
            Some((p + k) as usize)
        } else {
            None::<usize>
        },
    decreases k,
{
    if k > 0 {
        if p + 1 < len {
            lemma_steps_from((p + 1) as usize, len, (k - 1) as nat);
        } else {
            lemma_steps_none(len, (k - 1) as nat);
        }
    }
}

/// From position 0 of an n-entry schedule, n−1 advances land on the last
/// entry, and one further advance exhausts the cursor.
pub proof fn lemma_advance_walk(len: nat)
    requires
        1 <= len <= usize::MAX,
    ensures
        steps_cursor(Some(0usize), len, (len - 1) as nat) == Some((len - 1) as usize),
        steps_cursor(Some(0usize), len, len) is None,
{
    lemma_steps_from(0usize, len, (len - 1) as nat);
    lemma_steps_from(0usize, len, len);
}

/// The export round-trips: cleaning the newline-joined names of a load
/// gives back exactly the loaded names.
pub proof fn lemma_export_round_trip(raw: Seq<char>)
    ensures
        clean_spec(join_lines(load_names(clean_spec(raw)))) == load_names(clean_spec(raw)),
{
    crate::clean::lemma_clean_tidy(raw);
    crate::order::lemma_load_names_tidy(clean_spec(raw));
    let ns = load_names(clean_spec(raw));
    if ns.len() == 0 {
        let j = join_lines(ns);
        assert(j == Seq::<char>::empty());
        assert(split_lines(j) == seq![Seq::<char>::empty()]);
        assert(trim_spec(Seq::<char>::empty()) == Seq::<char>::empty());
        assert(split_lines(j).drop_first() =~= Seq::<Seq<char>>::empty());
        assert(crate::clean::clean_lines(Seq::<Seq<char>>::empty())
            == Seq::<Seq<char>>::empty());
        assert(split_lines(j)[0] == Seq::<char>::empty());
        assert(clean_spec(j) =~= ns);
    } else {
        assert forall|m: int| 0 <= m < ns.len() implies crate::text::newline_free(
            #[trigger] ns[m],
        ) by {
            assert(crate::text::tidy_name(ns[m]));
        }
        crate::text::lemma_split_join(ns);
        crate::clean::lemma_clean_lines_identity(ns);
    }
}

/// Recording a win for the left candidate and then reading the current pair
/// shows the left score raised by exactly the points added, the right score
/// unchanged, and both names unchanged.
pub proof fn lemma_record_left_then_current(
    params: Seq<Parameters>,
    pairs: Seq<(usize, usize)>,
    p: usize,
    points: u32,
)
    requires
        p < pairs.len(),
        pairs[p as int].0 < pairs[p as int].1 < params.len(),
        params[pairs[p as int].0 as int].score + points <= u32::MAX,
    ensures
        match (
            current_pair_spec(params, pairs, Some(p)),
            current_pair_spec(
                record_spec(params, pairs[p as int], Side::Lhs, points),
                pairs,
                Some(p),
            ),
        ) {
            (Some(before), Some(after)) => {
                &&& after.0.score == before.0.score + points
                &&& after.1.score == before.1.score
                &&& after.0.name == before.0.name
                &&& after.1.name == before.1.name
            },
            _ => false,
        },
{
}

/// The ranked results are a function of the candidate list alone: two
/// computations with no mutation in between return identical output.
pub proof fn lemma_ranked_results_idempotent(
    m: DecisionModel,
    r1: Seq<Parameters>,
    r2: Seq<Parameters>,
)
    requires
        r1 == sort_desc(m.parameters@),
        r2 == sort_desc(m.parameters@),
    ensures
        r1 == r2,
{
}

} // verus!
