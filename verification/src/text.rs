//! Plain-text helpers shared by the two file formats: splitting a
//! document into lines the way the surrounding tooling does (a line
//! ends at a line feed, and a carriage return immediately before the
//! line feed is dropped), trimming whitespace, and locating characters.

use vstd::prelude::*;
use vstd::string::StrSliceExecFns;

verus! {

/// The whitespace characters recognised when trimming text.
pub open spec fn spec_is_ws(c: char) -> bool {
    c == ' ' || c == '\t' || c == '\r' || c == '\n' || c == '\u{b}' || c == '\u{c}'
}

/// Executable twin of [`spec_is_ws`].
pub(crate) fn is_ws(c: char) -> (r: bool)
    ensures
        r == spec_is_ws(c),
{
    c == ' ' || c == '\t' || c == '\r' || c == '\n' || c == '\u{b}' || c == '\u{c}'
}

/// Index of the first occurrence of `c` in `s`, or `s.len()` when `c`
/// does not occur.
pub open spec fn spec_find(s: Seq<char>, c: char) -> int
    decreases s.len(),
{
    if s.len() == 0 {
        0
    } else if s[0] == c {
        0
    } else {
        1 + spec_find(s.skip(1), c)
    }
}

/// What [`spec_find`] returns: an in-range index, nothing equal to `c`
/// before it, and `c` at it unless it is the length.
pub proof fn lemma_find(s: Seq<char>, c: char)
    ensures
        0 <= spec_find(s, c) <= s.len(),
        forall|j: int| 0 <= j < spec_find(s, c) ==> s[j] != c,
        spec_find(s, c) < s.len() ==> s[spec_find(s, c)] == c,
    decreases s.len(),
{
    if s.len() == 0 {
    } else if s[0] == c {
    } else {
        lemma_find(s.skip(1), c);
        let i = spec_find(s, c);
        assert forall|j: int| 0 <= j < i implies s[j] != c by {
            if j > 0 {
                assert(s.skip(1)[j - 1] == s[j]);
            }
        }
        if i < s.len() {
            assert(s.skip(1)[i - 1] == s[i]);
        }
    }
}

/// The characterisation in [`lemma_find`] determines the index: any
/// position with no `c` before it that holds `c` or ends the sequence
/// is the one [`spec_find`] returns.
pub proof fn lemma_find_unique(s: Seq<char>, c: char, i: int)
    requires
        0 <= i <= s.len(),
        forall|j: int| 0 <= j < i ==> s[j] != c,
        i < s.len() ==> s[i] == c,
    ensures
        spec_find(s, c) == i,
{
    lemma_find(s, c);
    let f = spec_find(s, c);
    if f < i {
        assert(s[f] != c);
    }
    if f > i {
        assert(s[i] != c);
    }
}

/// Index of the first occurrence of `a` or `b` in `s`, or `s.len()`
/// when neither occurs.
pub open spec fn spec_find2(s: Seq<char>, a: char, b: char) -> int
    decreases s.len(),
{
    if s.len() == 0 {
        0
    } else if s[0] == a || s[0] == b {
        0
    } else {
        1 + spec_find2(s.skip(1), a, b)
    }
}

/// What [`spec_find2`] returns, mirroring [`lemma_find`].
pub proof fn lemma_find2(s: Seq<char>, a: char, b: char)
    ensures
        0 <= spec_find2(s, a, b) <= s.len(),
        forall|j: int| 0 <= j < spec_find2(s, a, b) ==> s[j] != a && s[j] != b,
        spec_find2(s, a, b) < s.len() ==> s[spec_find2(s, a, b)] == a || s[spec_find2(s, a, b)]
            == b,
    decreases s.len(),
{
    if s.len() == 0 {
    } else if s[0] == a || s[0] == b {
    } else {
        lemma_find2(s.skip(1), a, b);
        let i = spec_find2(s, a, b);
        assert forall|j: int| 0 <= j < i implies s[j] != a && s[j] != b by {
            if j > 0 {
                assert(s.skip(1)[j - 1] == s[j]);
            }
        }
        if i < s.len() {
            assert(s.skip(1)[i - 1] == s[i]);
        }
    }
}

/// The characterisation in [`lemma_find2`] determines the index.
pub proof fn lemma_find2_unique(s: Seq<char>, a: char, b: char, i: int)
    requires
        0 <= i <= s.len(),
        forall|j: int| 0 <= j < i ==> s[j] != a && s[j] != b,
        i < s.len() ==> s[i] == a || s[i] == b,
    ensures
        spec_find2(s, a, b) == i,
{
    lemma_find2(s, a, b);
    let f = spec_find2(s, a, b);
    if f < i {
        assert(s[f] != a && s[f] != b);
    }
    if f > i {
        assert(s[i] != a && s[i] != b);
    }
}

/// `s` without a single trailing carriage return, if it has one.
pub open spec fn spec_strip_cr(s: Seq<char>) -> Seq<char> {
    if s.len() > 0 && s.last() == '\r' {
        s.drop_last()
    } else {
        s
    }
}

/// The lines of `s`: split at every line feed, dropping a carriage
/// return that immediately precedes one; a final fragment without a
/// line feed is a line of its own, and an empty document has no lines.
pub open spec fn spec_lines(s: Seq<char>) -> Seq<Seq<char>>
    decreases s.len(),
    via spec_lines_decreases
{
    if s.len() == 0 {
        Seq::empty()
    } else {
        let i = spec_find(s, '\n');
        if i == s.len() {
            seq![s]
        } else {
            seq![spec_strip_cr(s.take(i))] + spec_lines(s.skip(i + 1))
        }
    }
}

#[via_fn]
proof fn spec_lines_decreases(s: Seq<char>) {
    lemma_find(s, '\n');
}

/// Splitting text that starts with a line (free of line feeds, not
/// ending in a carriage return) followed by a line feed yields that
/// line and then the lines of the remainder.
pub proof fn lemma_lines_prepend(line: Seq<char>, rest: Seq<char>)
    requires
        forall|j: int| 0 <= j < line.len() ==> line[j] != '\n',
        line.len() > 0 ==> line.last() != '\r',
    ensures
        spec_lines(line + seq!['\n'] + rest) == seq![line] + spec_lines(rest),
{
    let s = line + seq!['\n'] + rest;
    assert(s[line.len() as int] == '\n');
    lemma_find_unique(s, '\n', line.len() as int);
    assert(s.take(line.len() as int) =~= line);
    assert(s.skip(line.len() as int + 1) =~= rest);
    assert(spec_lines(s) =~= seq![line] + spec_lines(rest));
}

/// Splits `s` into its lines.
pub(crate) fn split_lines(s: &str) -> (r: Vec<String>)
    ensures
        r.deep_view() == spec_lines(s@),
{
    let n = s.unicode_len();
    let mut out: Vec<String> = Vec::new();
    let mut pos: usize = 0;
    proof {
        assert(s@.skip(0) =~= s@);
        assert(out.deep_view() + spec_lines(s@) =~= spec_lines(s@));
    }
    while pos < n
        invariant
            pos <= n,
            n == s@.len(),
            spec_lines(s@) == out.deep_view() + spec_lines(s@.skip(pos as int)),
        decreases n - pos,
    {
        let ghost t = s@.skip(pos as int);
        let mut j: usize = pos;
        while j < n && s.get_char(j) != '\n'
            invariant
                pos <= j <= n,
                n == s@.len(),
                forall|k: int| pos <= k < j ==> s@[k] != '\n',
            decreases n - j,
        {
            j += 1;
        }
        proof {
            assert forall|k: int| 0 <= k < j - pos implies t[k] != '\n' by {
                assert(t[k] == s@[pos + k]);
            }
            if j < n {
                assert(t[j - pos] == s@[j as int]);
            }
            lemma_find_unique(t, '\n', j - pos);
        }
        let line_end: usize = if j < n && j > pos && s.get_char(j - 1) == '\r' {
            j - 1
        } else {
            j
        };
        let line = s.substring_char(pos, line_end);
        proof {
            let i = spec_find(t, '\n');
            if j < n {
                assert(t.take(i) =~= s@.subrange(pos as int, j as int));
                if j > pos && s@[j - 1] == '\r' {
                    assert(t.take(i).last() == '\r');
                    assert(spec_strip_cr(t.take(i)) =~= s@.subrange(
                        pos as int,
                        line_end as int,
                    ));
                } else {
                    assert(spec_strip_cr(t.take(i)) =~= s@.subrange(
                        pos as int,
                        line_end as int,
                    ));
                }
                assert(t.skip(i + 1) =~= s@.skip(j + 1));
            } else {
                assert(t =~= s@.subrange(pos as int, line_end as int));
            }
        }
        let owned = line.to_owned();
        out.push(owned);
        proof {
            assert(out.deep_view() =~= out.deep_view().drop_last() + seq![line@]);
            if j < n {
                assert(spec_lines(s@) =~= out.deep_view() + spec_lines(s@.skip(j + 1)));
            } else {
                assert(spec_lines(t) == seq![line@]);
                assert(spec_lines(s@) =~= out.deep_view() + spec_lines(s@.skip(n as int)));
            }
        }
        if j < n {
            pos = j + 1;
        } else {
            pos = n;
        }
    }
    proof {
        assert(s@.skip(pos as int).len() == 0);
        assert(spec_lines(s@) =~= out.deep_view());
    }
    out
}

/// Whether `s` begins with `p`.
pub open spec fn spec_starts_with(s: Seq<char>, p: Seq<char>) -> bool {
    s.len() >= p.len() && s.subrange(0, p.len() as int) == p
}

/// Tests whether `s` begins with `p`.
pub(crate) fn starts_with(s: &str, p: &str) -> (r: bool)
    ensures
        r == spec_starts_with(s@, p@),
{
    let n = s.unicode_len();
    let m = p.unicode_len();
    if n < m {
        return false;
    }
    let mut i: usize = 0;
    while i < m
        invariant
            i <= m,
            m <= n,
            n == s@.len(),
            m == p@.len(),
            forall|k: int| 0 <= k < i ==> s@[k] == p@[k],
        decreases m - i,
    {
        if s.get_char(i) != p.get_char(i) {
            proof {
                assert(s@.subrange(0, m as int)[i as int] == s@[i as int]);
            }
            return false;
        }
        i += 1;
    }
    proof {
        assert(s@.subrange(0, m as int) =~= p@);
    }
    true
}

/// Number of whitespace characters at the front of `s`.
pub open spec fn spec_ws_prefix_len(s: Seq<char>) -> int
    decreases s.len(),
{
    if s.len() == 0 {
        0
    } else if spec_is_ws(s[0]) {
        1 + spec_ws_prefix_len(s.skip(1))
    } else {
        0
    }
}

/// What [`spec_ws_prefix_len`] returns: an in-range index, whitespace
/// everywhere before it, and something else at it unless it is the
/// length.
pub proof fn lemma_ws_prefix(s: Seq<char>)
    ensures
        0 <= spec_ws_prefix_len(s) <= s.len(),
        forall|j: int| 0 <= j < spec_ws_prefix_len(s) ==> spec_is_ws(s[j]),
        spec_ws_prefix_len(s) < s.len() ==> !spec_is_ws(s[spec_ws_prefix_len(s)]),
    decreases s.len(),
{
    if s.len() == 0 {
    } else if spec_is_ws(s[0]) {
        lemma_ws_prefix(s.skip(1));
        let i = spec_ws_prefix_len(s);
        assert forall|j: int| 0 <= j < i implies spec_is_ws(s[j]) by {
            if j > 0 {
                assert(s.skip(1)[j - 1] == s[j]);
            }
        }
        if i < s.len() {
            assert(s.skip(1)[i - 1] == s[i]);
        }
    } else {
    }
}

/// The characterisation in [`lemma_ws_prefix`] determines the count.
pub proof fn lemma_ws_prefix_unique(s: Seq<char>, i: int)
    requires
        0 <= i <= s.len(),
        forall|j: int| 0 <= j < i ==> spec_is_ws(s[j]),
        i < s.len() ==> !spec_is_ws(s[i]),
    ensures
        spec_ws_prefix_len(s) == i,
{
    lemma_ws_prefix(s);
    let f = spec_ws_prefix_len(s);
    if f < i {
        assert(spec_is_ws(s[f]));
    }
    if f > i {
        assert(spec_is_ws(s[i]));
    }
}

/// `s` without leading whitespace.
pub open spec fn spec_trim_start(s: Seq<char>) -> Seq<char> {
    s.skip(spec_ws_prefix_len(s))
}

/// Number of whitespace characters at the back of `s`.
pub open spec fn spec_ws_suffix_len(s: Seq<char>) -> int
    decreases s.len(),
{
    if s.len() == 0 {
        0
    } else if spec_is_ws(s.last()) {
        1 + spec_ws_suffix_len(s.drop_last())
    } else {
        0
    }
}

/// What [`spec_ws_suffix_len`] returns, mirroring [`lemma_ws_prefix`].
pub proof fn lemma_ws_suffix(s: Seq<char>)
    ensures
        0 <= spec_ws_suffix_len(s) <= s.len(),
        forall|j: int| s.len() - spec_ws_suffix_len(s) <= j < s.len() ==> spec_is_ws(s[j]),
        spec_ws_suffix_len(s) < s.len() ==> !spec_is_ws(s[s.len() - spec_ws_suffix_len(s) - 1]),
    decreases s.len(),
{
    if s.len() == 0 {
    } else if spec_is_ws(s.last()) {
        lemma_ws_suffix(s.drop_last());
        let i = spec_ws_suffix_len(s);
        assert forall|j: int| s.len() - i <= j < s.len() implies spec_is_ws(s[j]) by {
            if j < s.len() - 1 {
                assert(s.drop_last()[j] == s[j]);
            }
        }
        if i < s.len() {
            assert(s.drop_last()[s.len() - i - 1] == s[s.len() - i - 1]);
        }
    } else {
    }
}

/// The characterisation in [`lemma_ws_suffix`] determines the count.
pub proof fn lemma_ws_suffix_unique(s: Seq<char>, i: int)
    requires
        0 <= i <= s.len(),
        forall|j: int| s.len() - i <= j < s.len() ==> spec_is_ws(s[j]),
        i < s.len() ==> !spec_is_ws(s[s.len() - i - 1]),
    ensures
        spec_ws_suffix_len(s) == i,
{
    lemma_ws_suffix(s);
    let f = spec_ws_suffix_len(s);
    if f < i {
        assert(!spec_is_ws(s[s.len() - f - 1]));
        assert(spec_is_ws(s[s.len() - f - 1]));
    }
    if f > i {
        assert(!spec_is_ws(s[s.len() - i - 1]));
        assert(spec_is_ws(s[s.len() - i - 1]));
    }
}

/// Trims whitespace from the front of `s`.
pub(crate) fn trim_start(s: &str) -> (r: &str)
    ensures
        r@ == spec_trim_start(s@),
{
    let n = s.unicode_len();
    let mut a: usize = 0;
    while a < n && is_ws(s.get_char(a))
        invariant
            a <= n,
            n == s@.len(),
            forall|k: int| 0 <= k < a ==> spec_is_ws(s@[k]),
        decreases n - a,
    {
        a += 1;
    }
    proof {
        lemma_ws_prefix_unique(s@, a as int);
        assert(s@.subrange(a as int, n as int) =~= spec_trim_start(s@));
    }
    s.substring_char(a, n)
}

/// `s` without leading and trailing whitespace.
pub open spec fn spec_trim(s: Seq<char>) -> Seq<char> {
    let t = spec_trim_start(s);
    t.take(t.len() - spec_ws_suffix_len(t))
}

/// Trims whitespace from both ends of `s`.
pub(crate) fn trim(s: &str) -> (r: &str)
    ensures
        r@ == spec_trim(s@),
{
    let n = s.unicode_len();
    let mut a: usize = 0;
    while a < n && is_ws(s.get_char(a))
        invariant
            a <= n,
            n == s@.len(),
            forall|k: int| 0 <= k < a ==> spec_is_ws(s@[k]),
        decreases n - a,
    {
        a += 1;
    }
    proof {
        lemma_ws_prefix_unique(s@, a as int);
    }
    let ghost t = spec_trim_start(s@);
    if a == n {
        proof {
            assert(t.len() == 0);
            assert(spec_trim(s@) =~= s@.subrange(a as int, a as int));
        }
        return s.substring_char(a, a);
    }
    let mut b: usize = n;
    while b > a && is_ws(s.get_char(b - 1))
        invariant
            a <= b <= n,
            n == s@.len(),
            forall|k: int| b <= k < n ==> spec_is_ws(s@[k]),
        decreases b,
    {
        b -= 1;
    }
    proof {
        assert(!spec_is_ws(s@[a as int]));
        assert(b > a);
        assert(!spec_is_ws(s@[b - 1]));
        assert forall|j: int| t.len() - (n - b) <= j < t.len() implies spec_is_ws(t[j]) by {
            assert(t[j] == s@[a + j]);
        }
        assert(t[t.len() - (n - b) - 1] == s@[b - 1]);
        lemma_ws_suffix_unique(t, n - b);
        assert(spec_trim(s@) =~= s@.subrange(a as int, b as int));
    }
    s.substring_char(a, b)
}

} // verus!
