//! Character and string primitives the engine is specified with: whitespace,
//! code-point order, ASCII-case-insensitive equality, trimming, splitting on
//! newlines and joining with newlines.

use vstd::prelude::*;
use vstd::string::StrSliceExecFns;

verus! {

/// The views of a sequence of strings, as one sequence of character sequences.
pub open spec fn str_views(s: Seq<String>) -> Seq<Seq<char>> {
    Seq::new(s.len(), |i: int| s[i]@)
}

/// The code points with the White_Space property: what surrounding
/// whitespace means when an input line is trimmed.
pub open spec fn is_space_code(u: u32) -> bool {
    ||| u == 0x09
    ||| u == 0x0a
    ||| u == 0x0b
    ||| u == 0x0c
    ||| u == 0x0d
    ||| u == 0x20
    ||| u == 0x85
    ||| u == 0xa0
    ||| u == 0x1680
    ||| (0x2000 <= u && u <= 0x200a)
    ||| u == 0x2028
    ||| u == 0x2029
    ||| u == 0x202f
    ||| u == 0x205f
    ||| u == 0x3000
}

pub open spec fn is_space_char(c: char) -> bool {
    is_space_code(c as u32)
}

/// Whether `c` is whitespace.
pub fn is_space(c: char) -> (r: bool)
    ensures
        r == is_space_char(c),
{
    let u = c as u32;
    u == 0x09 || u == 0x0a || u == 0x0b || u == 0x0c || u == 0x0d || u == 0x20 || u == 0x85
        || u == 0xa0 || u == 0x1680 || (0x2000 <= u && u <= 0x200a) || u == 0x2028 || u == 0x2029
        || u == 0x202f || u == 0x205f || u == 0x3000
}

/// Strict lexicographic order on character sequences, by code point. This is
/// the order in which candidate names are sorted.
pub open spec fn lex_lt(a: Seq<char>, b: Seq<char>) -> bool
    decreases a.len(),
{
    if b.len() == 0 {
        false
    } else if a.len() == 0 {
        true
    } else if (a[0] as u32) < (b[0] as u32) {
        true
    } else if (b[0] as u32) < (a[0] as u32) {
        false
    } else {
        lex_lt(a.drop_first(), b.drop_first())
    }
}

/// Whether `a` orders strictly before `b` by code point.
pub fn str_lt(a: &str, b: &str) -> (r: bool)
    ensures
        r == lex_lt(a@, b@),
{
    let an = a.unicode_len();
    let bn = b.unicode_len();
    let mut i: usize = 0;
    proof {
        assert(a@.skip(0) =~= a@);
        assert(b@.skip(0) =~= b@);
    }
    while i < an && i < bn
        invariant
            i <= an,
            i <= bn,
            an == a@.len(),
            bn == b@.len(),
            lex_lt(a@, b@) == lex_lt(a@.skip(i as int), b@.skip(i as int)),
        decreases an - i,
    {
        let ca = a.get_char(i) as u32;
        let cb = b.get_char(i) as u32;
        proof {
            assert(a@.skip(i as int)[0] == a@[i as int]);
            assert(b@.skip(i as int)[0] == b@[i as int]);
            assert(a@.skip(i as int).drop_first() =~= a@.skip(i + 1));
            assert(b@.skip(i as int).drop_first() =~= b@.skip(i + 1));
        }
        if ca < cb {
            return true;
        }
        if cb < ca {
            return false;
        }
        i = i + 1;
    }
    proof {
        if i == bn {
            assert(b@.skip(i as int).len() == 0);
        } else {
            assert(a@.skip(i as int).len() == 0);
            assert(b@.skip(i as int).len() > 0);
        }
    }
    i < bn
}

/// Strict code-point order never relates a sequence to itself.
pub proof fn lemma_lex_lt_irrefl(a: Seq<char>)
    ensures
        !lex_lt(a, a),
    decreases a.len(),
{
    if a.len() > 0 {
        lemma_lex_lt_irrefl(a.drop_first());
    }
}

/// Strict code-point order is transitive.
pub proof fn lemma_lex_lt_trans(a: Seq<char>, b: Seq<char>, c: Seq<char>)
    requires
        lex_lt(a, b),
        lex_lt(b, c),
    ensures
        lex_lt(a, c),
    decreases a.len(),
{
    assert(b.len() > 0);
    assert(c.len() > 0);
    if a.len() > 0 {
        let a0 = a[0] as u32;
        let b0 = b[0] as u32;
        let c0 = c[0] as u32;
        if !(a0 < b0) && !(b0 < c0) {
            assert(a0 == b0 && b0 == c0);
            lemma_lex_lt_trans(a.drop_first(), b.drop_first(), c.drop_first());
        }
    }
}

/// ASCII lower-case folding of a code point.
pub open spec fn fold_code(u: u32) -> u32 {
    if 0x41 <= u && u <= 0x5a {
        (u + 0x20) as u32
    } else {
        u
    }
}

/// Case-insensitive equality of names: equal length, and equal characters
/// after ASCII lower-case folding.
pub open spec fn ci_eq(a: Seq<char>, b: Seq<char>) -> bool {
    a.len() == b.len() && forall|k: int|
        0 <= k < a.len() ==> fold_code(a[k] as u32) == fold_code(b[k] as u32)
}

/// Whether `a` and `b` are equal up to ASCII case.
pub fn str_ci_eq(a: &str, b: &str) -> (r: bool)
    ensures
        r == ci_eq(a@, b@),
{
    let an = a.unicode_len();
    let bn = b.unicode_len();
    if an != bn {
        return false;
    }
    let mut i: usize = 0;
    while i < an
        invariant
            i <= an,
            an == a@.len(),
            bn == b@.len(),
            an == bn,
            forall|k: int| 0 <= k < i ==> fold_code(a@[k] as u32) == fold_code(b@[k] as u32),
        decreases an - i,
    {
        let ca = a.get_char(i) as u32;
        let cb = b.get_char(i) as u32;
        let fa = if 0x41 <= ca && ca <= 0x5a { ca + 0x20 } else { ca };
        let fb = if 0x41 <= cb && cb <= 0x5a { cb + 0x20 } else { cb };
        if fa != fb {
            return false;
        }
        i = i + 1;
    }
    true
}

/// `s` without its leading whitespace.
pub open spec fn trim_start_spec(s: Seq<char>) -> Seq<char>
    decreases s.len(),
{
    if s.len() > 0 && is_space_char(s[0]) {
        trim_start_spec(s.drop_first())
    } else {
        s
    }
}

/// `s` without its trailing whitespace.
pub open spec fn trim_end_spec(s: Seq<char>) -> Seq<char>
    decreases s.len(),
{
    if s.len() > 0 && is_space_char(s.last()) {
        trim_end_spec(s.drop_last())
    } else {
        s
    }
}

/// `s` without surrounding whitespace: what one raw input line contributes.
pub open spec fn trim_spec(s: Seq<char>) -> Seq<char> {
    trim_end_spec(trim_start_spec(s))
}

proof fn lemma_trim_start_at(s: Seq<char>, a: int)
    requires
        0 <= a <= s.len(),
        forall|k: int| 0 <= k < a ==> is_space_char(s[k]),
        a < s.len() ==> !is_space_char(s[a]),
    ensures
        trim_start_spec(s) == s.skip(a),
    decreases a,
{
    if a == 0 {
        assert(s.skip(0) =~= s);
    } else {
        lemma_trim_start_at(s.drop_first(), a - 1);
        assert(s.drop_first().skip(a - 1) =~= s.skip(a));
    }
}

proof fn lemma_trim_end_at(s: Seq<char>, b: int)
    requires
        0 <= b <= s.len(),
        forall|k: int| b <= k < s.len() ==> is_space_char(s[k]),
        b > 0 ==> !is_space_char(s[b - 1]),
    ensures
        trim_end_spec(s) == s.take(b),
    decreases s.len(),
{
    if b == s.len() {
        assert(s.take(b) =~= s);
    } else {
        lemma_trim_end_at(s.drop_last(), b);
        assert(s.drop_last().take(b) =~= s.take(b));
    }
}

/// `s` without leading and trailing whitespace.
pub fn trim(s: &str) -> (r: &str)
    ensures
        r@ == trim_spec(s@),
{
    let n = s.unicode_len();
    let mut a: usize = 0;
    while a < n && is_space(s.get_char(a))
        invariant
            a <= n,
            n == s@.len(),
            forall|k: int| 0 <= k < a ==> is_space_char(s@[k]),
        decreases n - a,
    {
        a = a + 1;
    }
    let mut b: usize = n;
    while b > a && is_space(s.get_char(b - 1))
        invariant
            a <= b <= n,
            n == s@.len(),
            forall|k: int| b <= k < n ==> is_space_char(s@[k]),
        decreases b,
    {
        b = b - 1;
    }
    proof {
        lemma_trim_start_at(s@, a as int);
        let t = s@.skip(a as int);
        assert forall|k: int| b - a <= k < t.len() implies is_space_char(t[k]) by {
            assert(t[k] == s@[k + a]);
        }
        lemma_trim_end_at(t, b - a);
        assert(t.take(b - a) =~= s@.subrange(a as int, b as int));
    }
    s.substring_char(a, b)
}

/// The segments of `s` between newline characters: splitting keeps empty
/// segments, so the result always holds at least one segment.
pub open spec fn split_lines(s: Seq<char>) -> Seq<Seq<char>>
    decreases s.len(),
{
    if s.len() == 0 {
        seq![Seq::<char>::empty()]
    } else if s[0] == '\n' {
        seq![Seq::<char>::empty()] + split_lines(s.drop_first())
    } else {
        let rest = split_lines(s.drop_first());
        seq![seq![s[0]] + rest[0]] + rest.drop_first()
    }
}

pub proof fn lemma_split_lines_nonempty(s: Seq<char>)
    ensures
        split_lines(s).len() >= 1,
    decreases s.len(),
{
    if s.len() > 0 {
        lemma_split_lines_nonempty(s.drop_first());
    }
}

/// Splitting at the first newline: the part before it is the first segment,
/// and the rest of the string splits into the remaining segments.
pub proof fn lemma_split_lines_first(s: Seq<char>, k: int)
    requires
        0 <= k <= s.len(),
        forall|j: int| 0 <= j < k ==> s[j] != '\n',
        k < s.len() ==> s[k] == '\n',
    ensures
        k == s.len() ==> split_lines(s) == seq![s],
        k < s.len() ==> split_lines(s) == seq![s.take(k)] + split_lines(s.skip(k + 1)),
    decreases s.len(),
{
    if k == 0 {
        if s.len() == 0 {
            assert(Seq::<char>::empty() =~= s);
            assert(split_lines(s) =~= seq![s]);
        } else {
            assert(s[0] == '\n');
            assert(s.take(0) =~= Seq::<char>::empty());
            assert(s.skip(1) =~= s.drop_first());
            assert(split_lines(s) =~= seq![s.take(0)] + split_lines(s.skip(1)));
        }
    } else {
        let rest = split_lines(s.drop_first());
        lemma_split_lines_first(s.drop_first(), k - 1);
        if k == s.len() {
            assert(rest == seq![s.drop_first()]);
            assert(seq![s[0]] + s.drop_first() =~= s);
            assert(rest.drop_first() =~= Seq::<Seq<char>>::empty());
            assert(split_lines(s) =~= seq![s]);
        } else {
            assert(rest == seq![s.drop_first().take(k - 1)] + split_lines(s.drop_first().skip(k)));
            lemma_split_lines_nonempty(s.drop_first().skip(k));
            assert(rest[0] == s.drop_first().take(k - 1));
            assert(seq![s[0]] + s.drop_first().take(k - 1) =~= s.take(k));
            assert(rest.drop_first() =~= split_lines(s.drop_first().skip(k)));
            assert(s.drop_first().skip(k) =~= s.skip(k + 1));
            assert(split_lines(s) =~= seq![s.take(k)] + split_lines(s.skip(k + 1)));
        }
    }
}

/// The names joined by single newlines, with no trailing separator.
pub open spec fn join_lines(lines: Seq<Seq<char>>) -> Seq<char>
    decreases lines.len(),
{
    if lines.len() == 0 {
        Seq::empty()
    } else if lines.len() == 1 {
        lines[0]
    } else {
        join_lines(lines.drop_last()) + seq!['\n'] + lines.last()
    }
}

/// No newline anywhere in the sequence.
pub open spec fn newline_free(s: Seq<char>) -> bool {
    forall|k: int| 0 <= k < s.len() ==> s[k] != '\n'
}

/// A name as a load keeps it: non-empty, free of newlines, and already
/// trimmed.
pub open spec fn tidy_name(s: Seq<char>) -> bool {
    &&& s.len() > 0
    &&& newline_free(s)
    &&& trim_spec(s) == s
}

/// Every segment the split yields is free of newlines.
pub proof fn lemma_split_lines_newline_free(s: Seq<char>)
    ensures
        forall|m: int|
            0 <= m < split_lines(s).len() ==> newline_free(#[trigger] split_lines(s)[m]),
    decreases s.len(),
{
    if s.len() == 0 {
    } else if s[0] == '\n' {
        lemma_split_lines_newline_free(s.drop_first());
        let r = seq![Seq::<char>::empty()] + split_lines(s.drop_first());
        assert forall|m: int| 0 <= m < r.len() implies newline_free(#[trigger] r[m]) by {
            if m > 0 {
                assert(r[m] == split_lines(s.drop_first())[m - 1]);
            }
        }
    } else {
        lemma_split_lines_newline_free(s.drop_first());
        let rest = split_lines(s.drop_first());
        lemma_split_lines_nonempty(s.drop_first());
        let r = seq![seq![s[0]] + rest[0]] + rest.drop_first();
        assert forall|m: int| 0 <= m < r.len() implies newline_free(#[trigger] r[m]) by {
            if m == 0 {
                let h = seq![s[0]] + rest[0];
                assert(newline_free(rest[0]));
                assert forall|k: int| 0 <= k < h.len() implies h[k] != '\n' by {
                    if k > 0 {
                        assert(h[k] == rest[0][k - 1]);
                    }
                }
            } else {
                assert(r[m] == rest.drop_first()[m - 1]);
                assert(rest.drop_first()[m - 1] == rest[m]);
            }
        }
    }
}

proof fn lemma_trim_start_newline_free(s: Seq<char>)
    requires
        newline_free(s),
    ensures
        newline_free(trim_start_spec(s)),
    decreases s.len(),
{
    if s.len() > 0 && is_space_char(s[0]) {
        assert forall|k: int| 0 <= k < s.drop_first().len() implies s.drop_first()[k] != '\n' by {
            assert(s.drop_first()[k] == s[k + 1]);
        }
        lemma_trim_start_newline_free(s.drop_first());
    }
}

proof fn lemma_trim_end_newline_free(s: Seq<char>)
    requires
        newline_free(s),
    ensures
        newline_free(trim_end_spec(s)),
    decreases s.len(),
{
    if s.len() > 0 && is_space_char(s.last()) {
        assert forall|k: int| 0 <= k < s.drop_last().len() implies s.drop_last()[k] != '\n' by {
            assert(s.drop_last()[k] == s[k]);
        }
        lemma_trim_end_newline_free(s.drop_last());
    }
}

proof fn lemma_trim_start_first(s: Seq<char>)
    ensures
        trim_start_spec(s).len() > 0 ==> !is_space_char(trim_start_spec(s)[0]),
    decreases s.len(),
{
    if s.len() > 0 && is_space_char(s[0]) {
        lemma_trim_start_first(s.drop_first());
    }
}

proof fn lemma_trim_end_last(s: Seq<char>)
    ensures
        trim_end_spec(s).len() > 0 ==> !is_space_char(trim_end_spec(s).last()),
    decreases s.len(),
{
    if s.len() > 0 && is_space_char(s.last()) {
        lemma_trim_end_last(s.drop_last());
    }
}

proof fn lemma_trim_end_keeps_first(s: Seq<char>)
    ensures
        trim_end_spec(s).len() > 0 ==> trim_end_spec(s)[0] == s[0],
    decreases s.len(),
{
    if s.len() > 0 && is_space_char(s.last()) {
        lemma_trim_end_keeps_first(s.drop_last());
    }
}

/// Trimming what is already trimmed changes nothing.
pub proof fn lemma_trim_idempotent(s: Seq<char>)
    ensures
        trim_spec(trim_spec(s)) == trim_spec(s),
        newline_free(s) ==> newline_free(trim_spec(s)),
{
    let u = trim_start_spec(s);
    let t = trim_end_spec(u);
    lemma_trim_start_first(s);
    lemma_trim_end_last(u);
    lemma_trim_end_keeps_first(u);
    if t.len() > 0 {
        assert(!is_space_char(t[0]));
        assert(trim_start_spec(t) == t);
        assert(!is_space_char(t.last()));
        assert(trim_end_spec(t) == t);
    }
    if newline_free(s) {
        lemma_trim_start_newline_free(s);
        lemma_trim_end_newline_free(u);
    }
}

/// Joining from the front: the first name, a newline, then the rest.
proof fn lemma_join_lines_left(lines: Seq<Seq<char>>)
    requires
        lines.len() >= 2,
    ensures
        join_lines(lines) == lines[0] + seq!['\n'] + join_lines(lines.drop_first()),
    decreases lines.len(),
{
    if lines.len() == 2 {
        assert(lines.drop_last()[0] == lines[0]);
        assert(join_lines(lines.drop_last()) == lines[0]);
        assert(lines.drop_first().len() == 1);
        assert(lines.drop_first()[0] == lines[1]);
        assert(join_lines(lines.drop_first()) == lines[1]);
    } else {
        lemma_join_lines_left(lines.drop_last());
        assert(lines.drop_last()[0] == lines[0]);
        assert(lines.drop_last().drop_first() =~= lines.drop_first().drop_last());
        assert(lines.drop_first().len() >= 2);
        assert(lines.drop_first().last() == lines.last());
        assert(join_lines(lines.drop_first()) == join_lines(lines.drop_first().drop_last())
            + seq!['\n'] + lines.last());
        assert((lines[0] + seq!['\n'] + join_lines(lines.drop_first().drop_last())) + seq!['\n']
            + lines.last() =~= lines[0] + seq!['\n'] + (join_lines(lines.drop_first().drop_last())
            + seq!['\n'] + lines.last()));
    }
}

/// Splitting the joined names gives the names back, as long as none of them
/// holds a newline.
pub proof fn lemma_split_join(lines: Seq<Seq<char>>)
    requires
        lines.len() >= 1,
        forall|m: int| 0 <= m < lines.len() ==> newline_free(#[trigger] lines[m]),
    ensures
        split_lines(join_lines(lines)) == lines,
    decreases lines.len(),
{
    if lines.len() == 1 {
        let j = join_lines(lines);
        assert(j == lines[0]);
        lemma_split_lines_first(j, j.len() as int);
        assert(seq![j] =~= lines);
    } else {
        lemma_join_lines_left(lines);
        let j = join_lines(lines);
        let rest = lines.drop_first();
        let k = lines[0].len() as int;
        assert(j == lines[0] + seq!['\n'] + join_lines(rest));
        assert forall|i: int| 0 <= i < k implies j[i] != '\n' by {
            assert(j[i] == lines[0][i]);
        }
        assert(j[k] == '\n');
        lemma_split_lines_first(j, k);
        assert(j.take(k) =~= lines[0]);
        assert(j.skip(k + 1) =~= join_lines(rest));
        assert forall|m: int| 0 <= m < rest.len() implies newline_free(#[trigger] rest[m]) by {
            assert(rest[m] == lines[m + 1]);
        }
        lemma_split_join(rest);
        assert(seq![lines[0]] + rest =~= lines);
    }
}

} // verus!
