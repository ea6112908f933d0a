//! Primitive text-scanning helpers: finding a character or a substring,
//! splitting off a line, splitting on a delimiter, and trimming
//! whitespace.  Each executable helper is specified against a recursive
//! spec function over the character sequence of the input.

use vstd::prelude::*;
use vstd::string::*;

verus! {

/// Index of the first occurrence of `c` in `s`; `s.len()` when absent.
pub open spec fn spec_find(s: Seq<char>, c: char) -> int
    decreases s.len(),
{
    if s.len() == 0 {
        0
    } else if s[0] == c {
        0
    } else {
        1 + spec_find(s.skip(1), c)
    }
}

/// `spec_find` lies in `[0, s.len()]`, nothing before it is `c`, and it
/// points at `c` unless it is `s.len()`.
pub proof fn lemma_spec_find(s: Seq<char>, c: char)
    ensures
        0 <= spec_find(s, c) <= s.len(),
        forall|j: int| 0 <= j < spec_find(s, c) ==> s[j] != c,
        spec_find(s, c) < s.len() ==> s[spec_find(s, c)] == c,
    decreases s.len(),
{
    if s.len() == 0 {
    } else if s[0] == c {
    } else {
        lemma_spec_find(s.skip(1), c);
        let f = spec_find(s, c);
        assert forall|j: int| 0 <= j < f implies s[j] != c by {
            if j > 0 {
                assert(s.skip(1)[j - 1] == s[j]);
            }
        }
        if f < s.len() {
            assert(s.skip(1)[f - 1] == s[f]);
        }
    }
}

/// First index of `c` in `s`, or the length of `s` when `c` is absent.
pub fn find_char(s: &str, c: char) -> (i: usize)
    ensures
        i as int == spec_find(s@, c),
{
    let n = s.unicode_len();
    let mut i: usize = 0;
    while i < n
        invariant
            0 <= i <= n,
            n == s@.len(),
            forall|j: int| 0 <= j < i ==> s@[j] != c,
        decreases n - i,
    {
        if s.get_char(i) == c {
            proof {
                lemma_spec_find(s@, c);
            }
            return i;
        }
        i = i + 1;
    }
    proof {
        lemma_spec_find(s@, c);
    }
    n
}

/// True when `p` occurs in `s` starting at index `i`.
pub open spec fn is_match_at(s: Seq<char>, p: Seq<char>, i: int) -> bool {
    0 <= i && i + p.len() <= s.len() && s.subrange(i, i + p.len() as int) == p
}

/// Index of the first occurrence of `p` in `s`; `s.len()` when absent.
pub open spec fn spec_find_sub(s: Seq<char>, p: Seq<char>) -> int
    decreases s.len(),
{
    if is_match_at(s, p, 0) {
        0
    } else if s.len() == 0 {
        0
    } else {
        1 + spec_find_sub(s.skip(1), p)
    }
}

/// A match of `p` inside `s.skip(1)` at `j` is a match inside `s` at `j + 1`.
proof fn lemma_match_skip(s: Seq<char>, p: Seq<char>, j: int)
    requires
        s.len() > 0,
        0 <= j,
    ensures
        is_match_at(s.skip(1), p, j) == is_match_at(s, p, j + 1),
{
    if j + 1 + p.len() <= s.len() {
        assert(s.skip(1).subrange(j, j + p.len() as int) =~= s.subrange(
            j + 1,
            j + 1 + p.len() as int,
        ));
    }
}

/// `spec_find_sub` lies in `[0, s.len()]`, nothing before it matches, and
/// it is a match unless it is `s.len()`.
pub proof fn lemma_spec_find_sub(s: Seq<char>, p: Seq<char>)
    requires
        p.len() >= 1,
    ensures
        0 <= spec_find_sub(s, p) <= s.len(),
        forall|j: int| 0 <= j < spec_find_sub(s, p) ==> !is_match_at(s, p, j),
        spec_find_sub(s, p) < s.len() ==> is_match_at(s, p, spec_find_sub(s, p)),
    decreases s.len(),
{
    if is_match_at(s, p, 0) {
    } else if s.len() == 0 {
    } else {
        lemma_spec_find_sub(s.skip(1), p);
        let f = spec_find_sub(s, p);
        assert forall|j: int| 0 <= j < f implies !is_match_at(s, p, j) by {
            if j > 0 {
                lemma_match_skip(s, p, j - 1);
            }
        }
        if f < s.len() {
            lemma_match_skip(s, p, f - 1);
        }
    }
}

/// Whether `p` occurs in `s` at character index `i`.
fn matches_at(s: &str, p: &str, i: usize) -> (r: bool)
    requires
        i <= s@.len(),
    ensures
        r == is_match_at(s@, p@, i as int),
{
    let n = s.unicode_len();
    let m = p.unicode_len();
    if n - i < m {
        return false;
    }
    let mut j: usize = 0;
    while j < m
        invariant
            0 <= j <= m,
            m == p@.len(),
            n == s@.len(),
            i + m <= n,
            forall|k: int| 0 <= k < j ==> s@[i + k] == p@[k],
        decreases m - j,
    {
        if s.get_char(i + j) != p.get_char(j) {
            assert(!is_match_at(s@, p@, i as int)) by {
                if is_match_at(s@, p@, i as int) {
                    assert(s@.subrange(i as int, i + m as int)[j as int] == s@[i + j]);
                }
            }
            return false;
        }
        j = j + 1;
    }
    assert(s@.subrange(i as int, i + m as int) =~= p@);
    true
}

/// First index where `p` occurs in `s`, or the length of `s` when it
/// does not occur.
pub fn find_sub(s: &str, p: &str) -> (i: usize)
    requires
        p@.len() >= 1,
    ensures
        i as int == spec_find_sub(s@, p@),
{
    let n = s.unicode_len();
    let mut i: usize = 0;
    while i < n
        invariant
            0 <= i <= n,
            n == s@.len(),
            p@.len() >= 1,
            forall|j: int| 0 <= j < i ==> !is_match_at(s@, p@, j),
        decreases n - i,
    {
        if matches_at(s, p, i) {
            proof {
                lemma_spec_find_sub(s@, p@);
            }
            return i;
        }
        i = i + 1;
    }
    proof {
        lemma_spec_find_sub(s@, p@);
    }
    n
}

/// `s` begins with `p`.
pub open spec fn spec_has_prefix(s: Seq<char>, p: Seq<char>) -> bool {
    is_match_at(s, p, 0)
}

/// Whether `s` begins with `p`.
pub fn has_prefix(s: &str, p: &str) -> (r: bool)
    ensures
        r == spec_has_prefix(s@, p@),
{
    matches_at(s, p, 0)
}

/// Whether the views of `a` and `b` are the same character sequence.
pub fn str_eq(a: &str, b: &str) -> (r: bool)
    ensures
        r == (a@ == b@),
{
    let na = a.unicode_len();
    let nb = b.unicode_len();
    if na != nb {
        return false;
    }
    let mut i: usize = 0;
    while i < na
        invariant
            0 <= i <= na,
            na == a@.len(),
            na == b@.len(),
            forall|j: int| 0 <= j < i ==> a@[j] == b@[j],
        decreases na - i,
    {
        if a.get_char(i) != b.get_char(i) {
            return false;
        }
        i = i + 1;
    }
    proof {
        assert(a@ =~= b@);
    }
    true
}

/// The line before the first newline, and the text after that newline.
/// When `s` holds no newline the whole of `s` is the line and nothing
/// remains: end of input acts as a final line boundary.
pub open spec fn spec_line(s: Seq<char>) -> (Seq<char>, Seq<char>) {
    let i = spec_find(s, '\n');
    if i == s.len() {
        (s, Seq::<char>::empty())
    } else {
        (s.take(i), s.skip(i + 1))
    }
}

/// Split off the first line of `s`, consuming the newline that ends it.
pub fn split_line<'a>(s: &'a str) -> (r: (&'a str, &'a str))
    ensures
        r.0@ == spec_line(s@).0,
        r.1@ == spec_line(s@).1,
{
    let n = s.unicode_len();
    let i = find_char(s, '\n');
    proof {
        lemma_spec_find(s@, '\n');
    }
    if i == n {
        let rest = s.substring_char(n, n);
        proof {
            assert(rest@ =~= Seq::<char>::empty());
        }
        (s, rest)
    } else {
        let line = s.substring_char(0, i);
        let rest = s.substring_char(i + 1, n);
        (line, rest)
    }
}

/// Splitting off a line never lengthens the rest, and shortens it
/// whenever there was any text.
pub proof fn lemma_spec_line_len(s: Seq<char>)
    ensures
        spec_line(s).1.len() <= s.len(),
        s.len() > 0 ==> spec_line(s).1.len() < s.len(),
{
    lemma_spec_find(s, '\n');
}

/// The whitespace characters that separate statements and tokens.
pub open spec fn is_ws(c: char) -> bool {
    c == ' ' || c == '\t' || c == '\n' || c == '\r'
}

/// Length of the maximal whitespace prefix of `s`.
pub open spec fn spec_ws_len(s: Seq<char>) -> int
    decreases s.len(),
{
    if s.len() == 0 {
        0
    } else if !is_ws(s[0]) {
        0
    } else {
        1 + spec_ws_len(s.skip(1))
    }
}

/// `spec_ws_len` lies in `[0, s.len()]`, everything before it is
/// whitespace, and the character at it is not, unless it is `s.len()`.
pub proof fn lemma_spec_ws_len(s: Seq<char>)
    ensures
        0 <= spec_ws_len(s) <= s.len(),
        forall|j: int| 0 <= j < spec_ws_len(s) ==> is_ws(s[j]),
        spec_ws_len(s) < s.len() ==> !is_ws(s[spec_ws_len(s)]),
        s.len() > 0 && is_ws(s[0]) ==> spec_ws_len(s) >= 1,
    decreases s.len(),
{
    if s.len() == 0 {
    } else if !is_ws(s[0]) {
    } else {
        lemma_spec_ws_len(s.skip(1));
        let f = spec_ws_len(s);
        assert forall|j: int| 0 <= j < f implies is_ws(s[j]) by {
            if j > 0 {
                assert(s.skip(1)[j - 1] == s[j]);
            }
        }
        if f < s.len() {
            assert(s.skip(1)[f - 1] == s[f]);
        }
    }
}

/// `s` with its maximal whitespace prefix removed.
pub fn skip_ws<'a>(s: &'a str) -> (r: &'a str)
    ensures
        r@ == s@.skip(spec_ws_len(s@)),
{
    let n = s.unicode_len();
    let mut i: usize = 0;
    while i < n
        invariant
            0 <= i <= n,
            n == s@.len(),
            forall|j: int| 0 <= j < i ==> is_ws(s@[j]),
        decreases n - i,
    {
        let c = s.get_char(i);
        if !(c == ' ' || c == '\t' || c == '\n' || c == '\r') {
            proof {
                lemma_spec_ws_len(s@);
            }
            return s.substring_char(i, n);
        }
        i = i + 1;
    }
    proof {
        lemma_spec_ws_len(s@);
    }
    s.substring_char(n, n)
}

/// The tokens of `s` delimited by `c`.  Mirrors splitting on a single
/// character: consecutive delimiters yield empty tokens, and the split
/// of an empty text is one empty token.
pub open spec fn spec_split(s: Seq<char>, c: char) -> Seq<Seq<char>>
    decreases s.len(),
{
    let i = spec_find(s, c);
    if i == s.len() {
        seq![s]
    } else {
        proof {
            lemma_spec_find(s, c);
        }
        seq![s.take(i)] + spec_split(s.skip(i + 1), c)
    }
}

/// A split always yields at least one token.
pub proof fn lemma_spec_split_len(s: Seq<char>, c: char)
    ensures
        spec_split(s, c).len() >= 1,
{
    lemma_spec_find(s, c);
}

/// Split `s` on the single character `c`.
pub fn split_char(s: &str, c: char) -> (r: Vec<String>)
    ensures
        r.deep_view() == spec_split(s@, c),
{
    let mut out: Vec<String> = Vec::new();
    let mut rest: &str = s;
    loop
        invariant
            spec_split(s@, c) == out.deep_view() + spec_split(rest@, c),
        decreases rest@.len(),
    {
        let n = rest.unicode_len();
        let i = find_char(rest, c);
        proof {
            lemma_spec_find(rest@, c);
        }
        if i == n {
            let ghost prev = out.deep_view();
            out.push(String::from_str(rest));
            proof {
                assert(out.deep_view() =~= prev + seq![rest@]);
                assert(out.deep_view() + Seq::<Seq<char>>::empty() =~= out.deep_view());
                assert(prev + spec_split(rest@, c) =~= out.deep_view());
            }
            return out;
        } else {
            let tok = rest.substring_char(0, i);
            let next = rest.substring_char(i + 1, n);
            let ghost prev = out.deep_view();
            let ghost prev_rest = rest@;
            out.push(String::from_str(tok));
            rest = next;
            proof {
                assert(out.deep_view() =~= prev + seq![tok@]);
                assert(prev + (seq![prev_rest.take(i as int)] + spec_split(rest@, c)) =~= (prev
                    + seq![prev_rest.take(i as int)]) + spec_split(rest@, c));
            }
        }
    }
}

} // verus!
