//! The name pipeline a load runs: sort the names by code point, drop the
//! empty ones, and drop every name equal up to ASCII case to the name kept
//! just before it.

use vstd::prelude::*;
use vstd::string::StrSliceExecFns;

use crate::text::ci_eq;
use crate::text::lex_lt;
use crate::text::str_ci_eq;
use crate::text::str_lt;
use crate::text::str_views;

verus! {

/// `x` placed into the sorted sequence `s`, after every entry not above it.
pub open spec fn insert_sorted(x: Seq<char>, s: Seq<Seq<char>>) -> Seq<Seq<char>>
    decreases s.len(),
{
    if s.len() == 0 {
        seq![x]
    } else if lex_lt(x, s[0]) {
        seq![x] + s
    } else {
        seq![s[0]] + insert_sorted(x, s.drop_first())
    }
}

/// Insertion sort of the names, ascending by code point.
pub open spec fn sort_names(s: Seq<Seq<char>>) -> Seq<Seq<char>>
    decreases s.len(),
{
    if s.len() == 0 {
        s
    } else {
        insert_sorted(s.last(), sort_names(s.drop_last()))
    }
}

/// The names with the empty ones removed, in order.
pub open spec fn remove_empty(s: Seq<Seq<char>>) -> Seq<Seq<char>>
    decreases s.len(),
{
    if s.len() == 0 {
        s
    } else if s[0].len() == 0 {
        remove_empty(s.drop_first())
    } else {
        seq![s[0]] + remove_empty(s.drop_first())
    }
}

/// The tail of a case-insensitive dedup: `prev` is the name kept last, and
/// each further name is dropped when it equals `prev` up to ASCII case.
pub open spec fn dedup_ci_rest(prev: Seq<char>, s: Seq<Seq<char>>) -> Seq<Seq<char>>
    decreases s.len(),
{
    if s.len() == 0 {
        Seq::empty()
    } else if ci_eq(s[0], prev) {
        dedup_ci_rest(prev, s.drop_first())
    } else {
        seq![s[0]] + dedup_ci_rest(s[0], s.drop_first())
    }
}

/// The names with every entry equal up to ASCII case to the entry kept just
/// before it removed.
pub open spec fn dedup_ci(s: Seq<Seq<char>>) -> Seq<Seq<char>> {
    if s.len() == 0 {
        s
    } else {
        seq![s[0]] + dedup_ci_rest(s[0], s.drop_first())
    }
}

/// What the candidate list holds after a load of the given names.
pub open spec fn load_names(names: Seq<Seq<char>>) -> Seq<Seq<char>> {
    dedup_ci(remove_empty(sort_names(names)))
}

/// Names in non-descending code-point order.
pub open spec fn sorted_names(s: Seq<Seq<char>>) -> bool {
    forall|i: int, j: int| 0 <= i <= j < s.len() ==> !lex_lt(#[trigger] s[j], #[trigger] s[i])
}

/// No two neighbouring names are equal up to ASCII case.
pub open spec fn no_adjacent_ci_dup(s: Seq<Seq<char>>) -> bool {
    forall|k: int| #![trigger s[k + 1], s[k]] 0 <= k && k + 1 < s.len() ==> !ci_eq(s[k + 1], s[k])
}

/// Insertion keeps every lower bound that held of the inserted name and of
/// the sequence.
proof fn lemma_insert_sorted_lower_bound(x: Seq<char>, s: Seq<Seq<char>>, lo: Seq<char>)
    requires
        !lex_lt(x, lo),
        forall|i: int| 0 <= i < s.len() ==> !lex_lt(#[trigger] s[i], lo),
    ensures
        forall|i: int|
            0 <= i < insert_sorted(x, s).len() ==> !lex_lt(#[trigger] insert_sorted(x, s)[i], lo),
    decreases s.len(),
{
    if s.len() == 0 {
        assert(insert_sorted(x, s) == seq![x]);
    } else if lex_lt(x, s[0]) {
        let r = seq![x] + s;
        assert forall|i: int| 0 <= i < r.len() implies !lex_lt(#[trigger] r[i], lo) by {
            if i > 0 {
                assert(r[i] == s[i - 1]);
            }
        }
    } else {
        lemma_insert_sorted_lower_bound(x, s.drop_first(), lo);
        let r = seq![s[0]] + insert_sorted(x, s.drop_first());
        assert forall|i: int| 0 <= i < r.len() implies !lex_lt(#[trigger] r[i], lo) by {
            if i > 0 {
                assert(r[i] == insert_sorted(x, s.drop_first())[i - 1]);
            }
        }
    }
}

/// Inserting into a sorted sequence keeps it sorted.
proof fn lemma_insert_sorted_sorted(x: Seq<char>, s: Seq<Seq<char>>)
    requires
        sorted_names(s),
    ensures
        sorted_names(insert_sorted(x, s)),
    decreases s.len(),
{
    if s.len() == 0 {
        crate::text::lemma_lex_lt_irrefl(x);
    } else if lex_lt(x, s[0]) {
        let r = seq![x] + s;
        assert forall|i: int, j: int| 0 <= i <= j < r.len() implies !lex_lt(
            #[trigger] r[j],
            #[trigger] r[i],
        ) by {
            if i == 0 {
                if j == 0 {
                    crate::text::lemma_lex_lt_irrefl(x);
                } else {
                    assert(r[j] == s[j - 1]);
                    if lex_lt(s[j - 1], x) {
                        crate::text::lemma_lex_lt_trans(s[j - 1], x, s[0]);
                        assert(!lex_lt(s[j - 1], s[0]));
                    }
                }
            } else {
                assert(r[i] == s[i - 1]);
                assert(r[j] == s[j - 1]);
            }
        }
    } else {
        assert(sorted_names(s.drop_first())) by {
            assert forall|i: int, j: int| 0 <= i <= j < s.drop_first().len() implies !lex_lt(
                #[trigger] s.drop_first()[j],
                #[trigger] s.drop_first()[i],
            ) by {
                assert(s.drop_first()[i] == s[i + 1]);
                assert(s.drop_first()[j] == s[j + 1]);
            }
        }
        lemma_insert_sorted_sorted(x, s.drop_first());
        assert forall|i: int| 0 <= i < s.drop_first().len() implies !lex_lt(
            #[trigger] s.drop_first()[i],
            s[0],
        ) by {
            assert(s.drop_first()[i] == s[i + 1]);
        }
        lemma_insert_sorted_lower_bound(x, s.drop_first(), s[0]);
        let t = insert_sorted(x, s.drop_first());
        let r = seq![s[0]] + t;
        assert forall|i: int, j: int| 0 <= i <= j < r.len() implies !lex_lt(
            #[trigger] r[j],
            #[trigger] r[i],
        ) by {
            if i > 0 {
                assert(r[i] == t[i - 1]);
                assert(r[j] == t[j - 1]);
            } else if j > 0 {
                assert(r[j] == t[j - 1]);
            } else {
                crate::text::lemma_lex_lt_irrefl(s[0]);
            }
        }
    }
}

/// The insertion sort really sorts.
proof fn lemma_sort_names_sorted(s: Seq<Seq<char>>)
    ensures
        sorted_names(sort_names(s)),
    decreases s.len(),
{
    if s.len() > 0 {
        lemma_sort_names_sorted(s.drop_last());
        lemma_insert_sorted_sorted(s.last(), sort_names(s.drop_last()));
    }
}

/// Removing names keeps every lower bound.
proof fn lemma_remove_empty_lower_bound(s: Seq<Seq<char>>, lo: Seq<char>)
    requires
        forall|i: int| 0 <= i < s.len() ==> !lex_lt(#[trigger] s[i], lo),
    ensures
        forall|i: int|
            0 <= i < remove_empty(s).len() ==> !lex_lt(#[trigger] remove_empty(s)[i], lo),
    decreases s.len(),
{
    if s.len() > 0 {
        assert forall|i: int| 0 <= i < s.drop_first().len() implies !lex_lt(
            #[trigger] s.drop_first()[i],
            lo,
        ) by {
            assert(s.drop_first()[i] == s[i + 1]);
        }
        lemma_remove_empty_lower_bound(s.drop_first(), lo);
        if s[0].len() != 0 {
            let r = seq![s[0]] + remove_empty(s.drop_first());
            assert forall|i: int| 0 <= i < r.len() implies !lex_lt(#[trigger] r[i], lo) by {
                if i > 0 {
                    assert(r[i] == remove_empty(s.drop_first())[i - 1]);
                }
            }
        }
    }
}

/// Removing empty names keeps the order.
proof fn lemma_remove_empty_sorted(s: Seq<Seq<char>>)
    requires
        sorted_names(s),
    ensures
        sorted_names(remove_empty(s)),
    decreases s.len(),
{
    if s.len() > 0 {
        assert(sorted_names(s.drop_first())) by {
            assert forall|i: int, j: int| 0 <= i <= j < s.drop_first().len() implies !lex_lt(
                #[trigger] s.drop_first()[j],
                #[trigger] s.drop_first()[i],
            ) by {
                assert(s.drop_first()[i] == s[i + 1]);
                assert(s.drop_first()[j] == s[j + 1]);
            }
        }
        lemma_remove_empty_sorted(s.drop_first());
        if s[0].len() != 0 {
            assert forall|i: int| 0 <= i < s.drop_first().len() implies !lex_lt(
                #[trigger] s.drop_first()[i],
                s[0],
            ) by {
                assert(s.drop_first()[i] == s[i + 1]);
            }
            lemma_remove_empty_lower_bound(s.drop_first(), s[0]);
            let t = remove_empty(s.drop_first());
            let r = seq![s[0]] + t;
            assert forall|i: int, j: int| 0 <= i <= j < r.len() implies !lex_lt(
                #[trigger] r[j],
                #[trigger] r[i],
            ) by {
                if i > 0 {
                    assert(r[i] == t[i - 1]);
                    assert(r[j] == t[j - 1]);
                } else if j > 0 {
                    assert(r[j] == t[j - 1]);
                } else {
                    crate::text::lemma_lex_lt_irrefl(s[0]);
                }
            }
        }
    }
}

/// The kept tail of a dedup never starts with a duplicate of the name kept
/// before it, and never keeps two neighbouring duplicates.
proof fn lemma_dedup_rest_distinct(prev: Seq<char>, s: Seq<Seq<char>>)
    ensures
        dedup_ci_rest(prev, s).len() > 0 ==> !ci_eq(dedup_ci_rest(prev, s)[0], prev),
        no_adjacent_ci_dup(dedup_ci_rest(prev, s)),
    decreases s.len(),
{
    if s.len() == 0 {
    } else if ci_eq(s[0], prev) {
        lemma_dedup_rest_distinct(prev, s.drop_first());
        let r = dedup_ci_rest(prev, s);
        assert(r == dedup_ci_rest(prev, s.drop_first()));
        assert forall|k: int| 0 <= k && k + 1 < r.len() implies !ci_eq(
            #[trigger] r[k + 1],
            #[trigger] r[k],
        ) by {
            let t = dedup_ci_rest(prev, s.drop_first());
            assert(r[k + 1] == t[k + 1]);
            assert(r[k] == t[k]);
            assert(!ci_eq(t[k + 1], t[k]));
        }
    } else {
        lemma_dedup_rest_distinct(s[0], s.drop_first());
        let t = dedup_ci_rest(s[0], s.drop_first());
        let r = seq![s[0]] + t;
        assert(r[0] == s[0]);
        assert forall|k: int| 0 <= k && k + 1 < r.len() implies !ci_eq(
            #[trigger] r[k + 1],
            #[trigger] r[k],
        ) by {
            if k == 0 {
                assert(r[1] == t[0]);
                assert(!ci_eq(t[0], s[0]));
            } else {
                assert(r[k] == t[k - 1]);
                assert(r[k + 1] == t[k]);
                assert(!ci_eq(t[(k - 1) + 1], t[k - 1]));
            }
        }
    }
}

/// The dedup keeps every lower bound.
proof fn lemma_dedup_rest_lower_bound(prev: Seq<char>, s: Seq<Seq<char>>, lo: Seq<char>)
    requires
        forall|i: int| 0 <= i < s.len() ==> !lex_lt(#[trigger] s[i], lo),
    ensures
        forall|i: int|
            0 <= i < dedup_ci_rest(prev, s).len() ==> !lex_lt(
                #[trigger] dedup_ci_rest(prev, s)[i],
                lo,
            ),
    decreases s.len(),
{
    if s.len() > 0 {
        assert forall|i: int| 0 <= i < s.drop_first().len() implies !lex_lt(
            #[trigger] s.drop_first()[i],
            lo,
        ) by {
            assert(s.drop_first()[i] == s[i + 1]);
        }
        if ci_eq(s[0], prev) {
            lemma_dedup_rest_lower_bound(prev, s.drop_first(), lo);
            let r = dedup_ci_rest(prev, s);
            assert(r == dedup_ci_rest(prev, s.drop_first()));
            assert forall|i: int| 0 <= i < r.len() implies !lex_lt(#[trigger] r[i], lo) by {
                assert(r[i] == dedup_ci_rest(prev, s.drop_first())[i]);
            }
        } else {
            lemma_dedup_rest_lower_bound(s[0], s.drop_first(), lo);
            let t = dedup_ci_rest(s[0], s.drop_first());
            let r = seq![s[0]] + t;
            assert forall|i: int| 0 <= i < r.len() implies !lex_lt(#[trigger] r[i], lo) by {
                if i > 0 {
                    assert(r[i] == t[i - 1]);
                }
            }
        }
    }
}

/// The dedup keeps the order.
proof fn lemma_dedup_rest_sorted(prev: Seq<char>, s: Seq<Seq<char>>)
    requires
        sorted_names(s),
    ensures
        sorted_names(dedup_ci_rest(prev, s)),
    decreases s.len(),
{
    if s.len() > 0 {
        assert(sorted_names(s.drop_first())) by {
            assert forall|i: int, j: int| 0 <= i <= j < s.drop_first().len() implies !lex_lt(
                #[trigger] s.drop_first()[j],
                #[trigger] s.drop_first()[i],
            ) by {
                assert(s.drop_first()[i] == s[i + 1]);
                assert(s.drop_first()[j] == s[j + 1]);
            }
        }
        if ci_eq(s[0], prev) {
            lemma_dedup_rest_sorted(prev, s.drop_first());
        } else {
            lemma_dedup_rest_sorted(s[0], s.drop_first());
            assert forall|i: int| 0 <= i < s.drop_first().len() implies !lex_lt(
                #[trigger] s.drop_first()[i],
                s[0],
            ) by {
                assert(s.drop_first()[i] == s[i + 1]);
            }
            lemma_dedup_rest_lower_bound(s[0], s.drop_first(), s[0]);
            let t = dedup_ci_rest(s[0], s.drop_first());
            let r = seq![s[0]] + t;
            assert forall|i: int, j: int| 0 <= i <= j < r.len() implies !lex_lt(
                #[trigger] r[j],
                #[trigger] r[i],
            ) by {
                if i > 0 {
                    assert(r[i] == t[i - 1]);
                    assert(r[j] == t[j - 1]);
                } else if j > 0 {
                    assert(r[j] == t[j - 1]);
                } else {
                    crate::text::lemma_lex_lt_irrefl(s[0]);
                }
            }
        }
    }
}

/// What a load keeps is in ascending code-point order, and no two
/// neighbouring kept names are equal up to ASCII case.
pub proof fn lemma_load_names_ordered(names: Seq<Seq<char>>)
    ensures
        sorted_names(load_names(names)),
        no_adjacent_ci_dup(load_names(names)),
{
    lemma_sort_names_sorted(names);
    lemma_remove_empty_sorted(sort_names(names));
    let f = remove_empty(sort_names(names));
    if f.len() == 0 {
    } else {
        assert(sorted_names(f.drop_first())) by {
            assert forall|i: int, j: int| 0 <= i <= j < f.drop_first().len() implies !lex_lt(
                #[trigger] f.drop_first()[j],
                #[trigger] f.drop_first()[i],
            ) by {
                assert(f.drop_first()[i] == f[i + 1]);
                assert(f.drop_first()[j] == f[j + 1]);
            }
        }
        lemma_dedup_rest_sorted(f[0], f.drop_first());
        lemma_dedup_rest_distinct(f[0], f.drop_first());
        assert forall|i: int| 0 <= i < f.drop_first().len() implies !lex_lt(
            #[trigger] f.drop_first()[i],
            f[0],
        ) by {
            assert(f.drop_first()[i] == f[i + 1]);
        }
        lemma_dedup_rest_lower_bound(f[0], f.drop_first(), f[0]);
        let t = dedup_ci_rest(f[0], f.drop_first());
        let r = seq![f[0]] + t;
        assert forall|i: int, j: int| 0 <= i <= j < r.len() implies !lex_lt(
            #[trigger] r[j],
            #[trigger] r[i],
        ) by {
            if i > 0 {
                assert(r[i] == t[i - 1]);
                assert(r[j] == t[j - 1]);
            } else if j > 0 {
                assert(r[j] == t[j - 1]);
            } else {
                crate::text::lemma_lex_lt_irrefl(f[0]);
            }
        }
        assert(r[0] == f[0]);
        assert forall|k: int| 0 <= k && k + 1 < r.len() implies !ci_eq(
            #[trigger] r[k + 1],
            #[trigger] r[k],
        ) by {
            if k == 0 {
                assert(r[1] == t[0]);
                assert(!ci_eq(t[0], f[0]));
            } else {
                assert(r[k] == t[k - 1]);
                assert(r[k + 1] == t[k]);
                assert(!ci_eq(t[(k - 1) + 1], t[k - 1]));
            }
        }
    }
}

proof fn lemma_insert_sorted_tidy(x: Seq<char>, s: Seq<Seq<char>>)
    requires
        crate::text::tidy_name(x),
        forall|i: int| 0 <= i < s.len() ==> crate::text::tidy_name(#[trigger] s[i]),
    ensures
        forall|i: int|
            0 <= i < insert_sorted(x, s).len() ==> crate::text::tidy_name(
                #[trigger] insert_sorted(x, s)[i],
            ),
    decreases s.len(),
{
    if s.len() == 0 {
        assert(insert_sorted(x, s) == seq![x]);
    } else if lex_lt(x, s[0]) {
        let r = seq![x] + s;
        assert forall|i: int| 0 <= i < r.len() implies crate::text::tidy_name(
            #[trigger] r[i],
        ) by {
            if i > 0 {
                assert(r[i] == s[i - 1]);
            }
        }
    } else {
        assert forall|i: int| 0 <= i < s.drop_first().len() implies crate::text::tidy_name(
            #[trigger] s.drop_first()[i],
        ) by {
            assert(s.drop_first()[i] == s[i + 1]);
        }
        lemma_insert_sorted_tidy(x, s.drop_first());
        let t = insert_sorted(x, s.drop_first());
        let r = seq![s[0]] + t;
        assert forall|i: int| 0 <= i < r.len() implies crate::text::tidy_name(
            #[trigger] r[i],
        ) by {
            if i > 0 {
                assert(r[i] == t[i - 1]);
            }
        }
    }
}

proof fn lemma_sort_names_tidy(s: Seq<Seq<char>>)
    requires
        forall|i: int| 0 <= i < s.len() ==> crate::text::tidy_name(#[trigger] s[i]),
    ensures
        forall|i: int|
            0 <= i < sort_names(s).len() ==> crate::text::tidy_name(#[trigger] sort_names(s)[i]),
    decreases s.len(),
{
    if s.len() > 0 {
        assert forall|i: int| 0 <= i < s.drop_last().len() implies crate::text::tidy_name(
            #[trigger] s.drop_last()[i],
        ) by {
            assert(s.drop_last()[i] == s[i]);
        }
        lemma_sort_names_tidy(s.drop_last());
        lemma_insert_sorted_tidy(s.last(), sort_names(s.drop_last()));
    }
}

proof fn lemma_remove_empty_tidy(s: Seq<Seq<char>>)
    requires
        forall|i: int| 0 <= i < s.len() ==> crate::text::tidy_name(#[trigger] s[i]),
    ensures
        forall|i: int|
            0 <= i < remove_empty(s).len() ==> crate::text::tidy_name(
                #[trigger] remove_empty(s)[i],
            ),
    decreases s.len(),
{
    if s.len() > 0 {
        assert forall|i: int| 0 <= i < s.drop_first().len() implies crate::text::tidy_name(
            #[trigger] s.drop_first()[i],
        ) by {
            assert(s.drop_first()[i] == s[i + 1]);
        }
        lemma_remove_empty_tidy(s.drop_first());
        let rest = remove_empty(s.drop_first());
        if s[0].len() == 0 {
            let r = remove_empty(s);
            assert(r =~= rest);
            assert forall|i: int| 0 <= i < r.len() implies crate::text::tidy_name(
                #[trigger] r[i],
            ) by {
                assert(r[i] == rest[i]);
            }
        } else {
            let r = seq![s[0]] + rest;
            assert forall|i: int| 0 <= i < r.len() implies crate::text::tidy_name(
                #[trigger] r[i],
            ) by {
                if i > 0 {
                    assert(r[i] == rest[i - 1]);
                }
            }
        }
    }
}

proof fn lemma_dedup_rest_tidy(prev: Seq<char>, s: Seq<Seq<char>>)
    requires
        forall|i: int| 0 <= i < s.len() ==> crate::text::tidy_name(#[trigger] s[i]),
    ensures
        forall|i: int|
            0 <= i < dedup_ci_rest(prev, s).len() ==> crate::text::tidy_name(
                #[trigger] dedup_ci_rest(prev, s)[i],
            ),
    decreases s.len(),
{
    if s.len() > 0 {
        assert forall|i: int| 0 <= i < s.drop_first().len() implies crate::text::tidy_name(
            #[trigger] s.drop_first()[i],
        ) by {
            assert(s.drop_first()[i] == s[i + 1]);
        }
        if ci_eq(s[0], prev) {
            lemma_dedup_rest_tidy(prev, s.drop_first());
            let r = dedup_ci_rest(prev, s);
            assert(r =~= dedup_ci_rest(prev, s.drop_first()));
            assert forall|i: int| 0 <= i < r.len() implies crate::text::tidy_name(
                #[trigger] r[i],
            ) by {
                assert(r[i] == dedup_ci_rest(prev, s.drop_first())[i]);
            }
        } else {
            lemma_dedup_rest_tidy(s[0], s.drop_first());
            let t = dedup_ci_rest(s[0], s.drop_first());
            let r = seq![s[0]] + t;
            assert forall|i: int| 0 <= i < r.len() implies crate::text::tidy_name(
                #[trigger] r[i],
            ) by {
                if i > 0 {
                    assert(r[i] == t[i - 1]);
                }
            }
        }
    }
}

/// A load of tidy names keeps every name tidy: non-empty, newline-free and
/// trimmed.
pub proof fn lemma_load_names_tidy(names: Seq<Seq<char>>)
    requires
        forall|i: int| 0 <= i < names.len() ==> crate::text::tidy_name(#[trigger] names[i]),
    ensures
        forall|i: int|
            0 <= i < load_names(names).len() ==> crate::text::tidy_name(
                #[trigger] load_names(names)[i],
            ),
{
    lemma_sort_names_tidy(names);
    lemma_remove_empty_tidy(sort_names(names));
    let f = remove_empty(sort_names(names));
    if f.len() > 0 {
        assert forall|i: int| 0 <= i < f.drop_first().len() implies crate::text::tidy_name(
            #[trigger] f.drop_first()[i],
        ) by {
            assert(f.drop_first()[i] == f[i + 1]);
        }
        lemma_dedup_rest_tidy(f[0], f.drop_first());
        let t = dedup_ci_rest(f[0], f.drop_first());
        let r = seq![f[0]] + t;
        assert forall|i: int| 0 <= i < r.len() implies crate::text::tidy_name(
            #[trigger] r[i],
        ) by {
            if i > 0 {
                assert(r[i] == t[i - 1]);
            }
        }
    }
}

/// Inserting at the position the scan found is the same as the recursive
/// insertion.
proof fn lemma_insert_sorted_at(x: Seq<char>, s: Seq<Seq<char>>, k: int)
    requires
        0 <= k <= s.len(),
        forall|i: int| 0 <= i < k ==> !lex_lt(x, s[i]),
        k < s.len() ==> lex_lt(x, s[k]),
    ensures
        insert_sorted(x, s) == s.insert(k, x),
    decreases k,
{
    if k == 0 {
        if s.len() == 0 {
            assert(insert_sorted(x, s) =~= s.insert(0, x));
        } else {
            assert(seq![x] + s =~= s.insert(0, x));
        }
    } else {
        lemma_insert_sorted_at(x, s.drop_first(), k - 1);
        assert(seq![s[0]] + s.drop_first().insert(k - 1, x) =~= s.insert(k, x));
    }
}

/// Places `x` into the sorted vector `sorted`, after every entry not above it.
fn insert_name(sorted: &mut Vec<String>, x: String)
    ensures
        str_views(final(sorted)@) == insert_sorted(x@, str_views(old(sorted)@)),
{
    let mut k: usize = 0;
    loop
        invariant_except_break
            k <= sorted@.len(),
            *sorted == *old(sorted),
            forall|i: int| 0 <= i < k ==> !lex_lt(x@, str_views(sorted@)[i]),
        ensures
            *sorted == *old(sorted),
            k <= sorted@.len(),
            forall|i: int| 0 <= i < k ==> !lex_lt(x@, str_views(sorted@)[i]),
            k < sorted@.len() ==> lex_lt(x@, str_views(sorted@)[k as int]),
        decreases sorted@.len() - k,
    {
        if k == sorted.len() {
            break;
        }
        if str_lt(x.as_str(), sorted[k].as_str()) {
            break;
        }
        k = k + 1;
    }
    proof {
        lemma_insert_sorted_at(x@, str_views(sorted@), k as int);
    }
    let ghost before = sorted@;
    sorted.insert(k, x);
    proof {
        assert(str_views(sorted@) =~= str_views(before).insert(k as int, x@));
    }
}

/// Insertion sort of the names, ascending by code point.
fn sort_names_exec(v: Vec<String>) -> (r: Vec<String>)
    ensures
        str_views(r@) == sort_names(str_views(v@)),
    decreases v@.len(),
{
    let mut w = v;
    if w.len() == 0 {
        proof {
            assert(str_views(w@).len() == 0);
        }
        return w;
    }
    let x = w.pop().unwrap();
    proof {
        assert(str_views(w@) =~= str_views(v@).drop_last());
        assert(x@ == str_views(v@).last());
    }
    let mut sorted = sort_names_exec(w);
    insert_name(&mut sorted, x);
    sorted
}

/// The names with the empty ones removed, in order.
fn remove_empty_exec(v: &Vec<String>) -> (r: Vec<String>)
    ensures
        str_views(r@) == remove_empty(str_views(v@)),
{
    let mut r: Vec<String> = Vec::new();
    let mut i: usize = 0;
    proof {
        assert(str_views(v@).skip(0) =~= str_views(v@));
        assert(str_views(r@) =~= Seq::<Seq<char>>::empty());
    }
    while i < v.len()
        invariant
            i <= v@.len(),
            remove_empty(str_views(v@)) == str_views(r@) + remove_empty(
                str_views(v@).skip(i as int),
            ),
        decreases v@.len() - i,
    {
        let ghost r_before = r@;
        let ghost rem = str_views(v@).skip(i as int);
        if !v[i].as_str().is_empty() {
            r.push(v[i].clone());
        }
        proof {
            assert(rem[0] == str_views(v@)[i as int]);
            assert(rem.drop_first() =~= str_views(v@).skip(i + 1));
            if v@[i as int]@.len() == 0 {
                assert(str_views(r@) =~= str_views(r_before));
            } else {
                assert(str_views(r@) =~= str_views(r_before).push(v@[i as int]@));
                assert(str_views(r_before).push(v@[i as int]@) =~= str_views(r_before) + seq![
                    rem[0],
                ]);
            }
        }
        i = i + 1;
    }
    proof {
        assert(str_views(v@).skip(v@.len() as int).len() == 0);
        assert(str_views(r@) =~= str_views(r@) + remove_empty(str_views(v@).skip(v@.len() as int)));
    }
    r
}

/// The names with case-insensitive duplicates of the kept neighbour removed.
fn dedup_ci_exec(v: &Vec<String>) -> (r: Vec<String>)
    ensures
        str_views(r@) == dedup_ci(str_views(v@)),
{
    let mut r: Vec<String> = Vec::new();
    if v.len() == 0 {
        proof {
            assert(str_views(r@) =~= str_views(v@));
        }
        return r;
    }
    r.push(v[0].clone());
    proof {
        assert(str_views(v@).skip(1) =~= str_views(v@).drop_first());
        assert(str_views(r@) =~= seq![str_views(v@)[0]]);
    }
    let mut i: usize = 1;
    while i < v.len()
        invariant
            1 <= i <= v@.len(),
            r@.len() >= 1,
            dedup_ci(str_views(v@)) == str_views(r@) + dedup_ci_rest(
                str_views(r@).last(),
                str_views(v@).skip(i as int),
            ),
        decreases v@.len() - i,
    {
        let ghost r_before = r@;
        let ghost rem = str_views(v@).skip(i as int);
        let last = r.len() - 1;
        if !str_ci_eq(v[i].as_str(), r[last].as_str()) {
            r.push(v[i].clone());
        }
        proof {
            assert(rem[0] == str_views(v@)[i as int]);
            assert(rem.drop_first() =~= str_views(v@).skip(i + 1));
            if !ci_eq(v@[i as int]@, str_views(r_before).last()) {
                assert(str_views(r@) =~= str_views(r_before).push(v@[i as int]@));
                assert(str_views(r_before).push(v@[i as int]@) =~= str_views(r_before) + seq![
                    rem[0],
                ]);
            }
        }
        i = i + 1;
    }
    proof {
        assert(str_views(v@).skip(v@.len() as int).len() == 0);
        assert(str_views(r@) =~= str_views(r@) + dedup_ci_rest(
            str_views(r@).last(),
            str_views(v@).skip(v@.len() as int),
        ));
    }
    r
}

/// The full pipeline: sorts the given names, removes the empty ones, and
/// removes case-insensitive duplicates of a kept neighbour.
pub fn prepare_names(list: &Vec<String>) -> (r: Vec<String>)
    ensures
        str_views(r@) == load_names(str_views(list@)),
{
    let mut copy: Vec<String> = Vec::new();
    let mut i: usize = 0;
    while i < list.len()
        invariant
            i <= list@.len(),
            copy@.len() == i,
            forall|j: int| 0 <= j < i ==> copy@[j]@ == list@[j]@,
        decreases list@.len() - i,
    {
        copy.push(list[i].clone());
        i = i + 1;
    }
    proof {
        assert(str_views(copy@) =~= str_views(list@));
    }
    let sorted = sort_names_exec(copy);
    let filtered = remove_empty_exec(&sorted);
    let deduped = dedup_ci_exec(&filtered);
    deduped
}

} // verus!
