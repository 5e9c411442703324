//! Turning a raw multi-line text blob into the list of candidate names:
//! split on newlines, trim each line, and drop the lines that become empty.

use vstd::prelude::*;
use vstd::string::StrSliceExecFns;

use crate::text::lemma_split_lines_first;
use crate::text::lemma_split_lines_newline_free;
use crate::text::lemma_trim_idempotent;
use crate::text::newline_free;
use crate::text::split_lines;
use crate::text::str_views;
use crate::text::tidy_name;
use crate::text::trim;
use crate::text::trim_spec;

verus! {

/// The trimmed, non-blank entries of the given lines, in order.
pub open spec fn clean_lines(lines: Seq<Seq<char>>) -> Seq<Seq<char>>
    decreases lines.len(),
{
    if lines.len() == 0 {
        Seq::empty()
    } else {
        let t = trim_spec(lines[0]);
        (if t.len() == 0 {
            Seq::<Seq<char>>::empty()
        } else {
            seq![t]
        }) + clean_lines(lines.drop_first())
    }
}

/// The non-blank, whitespace-trimmed lines of `input`, in order.
pub open spec fn clean_spec(input: Seq<char>) -> Seq<Seq<char>> {
    clean_lines(split_lines(input))
}

proof fn lemma_clean_lines_tidy(lines: Seq<Seq<char>>)
    requires
        forall|m: int| 0 <= m < lines.len() ==> newline_free(#[trigger] lines[m]),
    ensures
        forall|m: int|
            0 <= m < clean_lines(lines).len() ==> tidy_name(#[trigger] clean_lines(lines)[m]),
    decreases lines.len(),
{
    if lines.len() > 0 {
        assert forall|m: int| 0 <= m < lines.drop_first().len() implies newline_free(
            #[trigger] lines.drop_first()[m],
        ) by {
            assert(lines.drop_first()[m] == lines[m + 1]);
        }
        lemma_clean_lines_tidy(lines.drop_first());
        let rest = clean_lines(lines.drop_first());
        let t = trim_spec(lines[0]);
        lemma_trim_idempotent(lines[0]);
        if t.len() == 0 {
            let r = clean_lines(lines);
            assert(r =~= rest);
            assert forall|m: int| 0 <= m < r.len() implies tidy_name(#[trigger] r[m]) by {
                assert(r[m] == rest[m]);
            }
        } else {
            let r = seq![t] + rest;
            assert forall|m: int| 0 <= m < r.len() implies tidy_name(#[trigger] r[m]) by {
                if m > 0 {
                    assert(r[m] == rest[m - 1]);
                }
            }
        }
    }
}

/// Every name the cleaning keeps is non-empty, newline-free and trimmed.
pub proof fn lemma_clean_tidy(input: Seq<char>)
    ensures
        forall|m: int|
            0 <= m < clean_spec(input).len() ==> tidy_name(#[trigger] clean_spec(input)[m]),
{
    lemma_split_lines_newline_free(input);
    lemma_clean_lines_tidy(split_lines(input));
}

/// Cleaning a list of names that are already tidy changes nothing.
pub proof fn lemma_clean_lines_identity(lines: Seq<Seq<char>>)
    requires
        forall|m: int| 0 <= m < lines.len() ==> tidy_name(#[trigger] lines[m]),
    ensures
        clean_lines(lines) == lines,
    decreases lines.len(),
{
    if lines.len() > 0 {
        assert forall|m: int| 0 <= m < lines.drop_first().len() implies tidy_name(
            #[trigger] lines.drop_first()[m],
        ) by {
            assert(lines.drop_first()[m] == lines[m + 1]);
        }
        lemma_clean_lines_identity(lines.drop_first());
        assert(trim_spec(lines[0]) == lines[0]);
        assert(clean_lines(lines) =~= lines);
    }
}

/// Splits `input` on newlines, trims surrounding whitespace from each line,
/// and keeps the lines that are not empty afterwards.
pub fn clean_input(input: &str) -> (r: Vec<String>)
    ensures
        str_views(r@) == clean_spec(input@),
{
    let n = input.unicode_len();
    let mut r: Vec<String> = Vec::new();
    let mut start: usize = 0;
    proof {
        assert(input@.subrange(0, n as int) =~= input@);
        assert(str_views(r@) =~= Seq::<Seq<char>>::empty());
    }
    loop
        invariant_except_break
            start <= n,
            n == input@.len(),
            clean_spec(input@) == str_views(r@) + clean_lines(
                split_lines(input@.subrange(start as int, n as int)),
            ),
        ensures
            str_views(r@) == clean_spec(input@),
        decreases n - start,
    {
        let ghost rem = input@.subrange(start as int, n as int);
        let mut pos: usize = start;
        while pos < n && input.get_char(pos) != '\n'
            invariant
                start <= pos <= n,
                n == input@.len(),
                forall|j: int| start <= j < pos ==> input@[j] != '\n',
            decreases n - pos,
        {
            pos = pos + 1;
        }
        let segment = input.substring_char(start, pos);
        let trimmed = trim(segment);
        let ghost r_before = r@;
        if !trimmed.is_empty() {
            r.push(trimmed.to_owned());
        }
        proof {
            let k = pos - start;
            assert forall|j: int| 0 <= j < k implies rem[j] != '\n' by {
                assert(rem[j] == input@[start + j]);
            }
            if k < rem.len() {
                assert(rem[k] == input@[pos as int]);
            }
            lemma_split_lines_first(rem, k);
            assert(segment@ =~= rem.take(k));
            if trimmed@.len() == 0 {
                assert(str_views(r@) =~= str_views(r_before));
            } else {
                assert(str_views(r@) =~= str_views(r_before).push(trim_spec(segment@)));
            }
        }
        if pos == n {
            proof {
                assert(split_lines(rem) == seq![rem]);
                assert(seq![rem].drop_first() =~= Seq::<Seq<char>>::empty());
                assert(clean_lines(seq![rem]) == (if trim_spec(rem).len() == 0 {
                    Seq::<Seq<char>>::empty()
                } else {
                    seq![trim_spec(rem)]
                }) + clean_lines(Seq::<Seq<char>>::empty()));
                assert(rem.take(pos - start) =~= rem);
                assert(str_views(r@) =~= clean_spec(input@));
            }
            break;
        }
        proof {
            let k = pos - start;
            let tail = split_lines(rem.skip(k + 1));
            assert(split_lines(rem) == seq![rem.take(k)] + tail);
            crate::text::lemma_split_lines_nonempty(rem.skip(k + 1));
            assert((seq![rem.take(k)] + tail)[0] == rem.take(k));
            assert((seq![rem.take(k)] + tail).drop_first() =~= tail);
            assert(rem.skip(k + 1) =~= input@.subrange(pos + 1, n as int));
            assert(clean_spec(input@) == str_views(r@) + clean_lines(
                split_lines(input@.subrange(pos + 1, n as int)),
            ));
        }
        start = pos + 1;
    }
    r
}

} // verus!
