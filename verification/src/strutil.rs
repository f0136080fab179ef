//! Verified helpers for working with strings as sequences of characters.
//!
//! Executable code here mirrors the small string operations of the standard
//! library that the rest of the crate needs, each with an exact contract over
//! the string's view.

use vstd::prelude::*;
use vstd::string::StrSliceExecFns;

verus! {

/// Characters with the Unicode `White_Space` property: the set that
/// `str::trim` strips from both ends of a string.
pub open spec fn is_space(c: char) -> bool {
    c == ' ' || c == '\t' || c == '\n' || c == '\r' || c == '\u{0b}' || c == '\u{0c}'
        || c == '\u{85}' || c == '\u{a0}' || c == '\u{1680}' || (0x2000 <= c as int
        && c as int <= 0x200a) || c == '\u{2028}' || c == '\u{2029}' || c == '\u{202f}'
        || c == '\u{205f}' || c == '\u{3000}'
}

pub fn is_space_char(c: char) -> (r: bool)
    ensures
        r == is_space(c),
{
    let u: u32 = c as u32;
    u == 0x20 || u == 0x09 || u == 0x0a || u == 0x0d || u == 0x0b || u == 0x0c || u == 0x85
        || u == 0xa0 || u == 0x1680 || (0x2000 <= u && u <= 0x200a) || u == 0x2028 || u == 0x2029
        || u == 0x202f || u == 0x205f || u == 0x3000
}

/// Relies on `String::push`: appends one character at the end of the string.
#[verifier::external_body]
pub fn push_char(s: &mut String, c: char)
    ensures
        final(s)@ == old(s)@.push(c),
{
    s.push(c);
}

/// Copies the characters of a string slice into a vector.
pub fn str_to_chars(s: &str) -> (r: Vec<char>)
    ensures
        r@ == s@,
{
    let n: usize = s.unicode_len();
    let mut r: Vec<char> = Vec::new();
    let mut i: usize = 0;
    while i < n
        invariant
            n == s@.len(),
            i <= n,
            r@ == s@.subrange(0, i as int),
        decreases n - i,
    {
        r.push(s.get_char(i));
        assert(r@ =~= s@.subrange(0, i + 1));
        i = i + 1;
    }
    assert(r@ =~= s@);
    r
}

/// Builds a string from a sequence of characters.
pub fn chars_to_string(v: &[char]) -> (r: String)
    ensures
        r@ == v@,
{
    let n: usize = v.len();
    let mut r: String = String::new();
    let mut i: usize = 0;
    while i < n
        invariant
            n == v@.len(),
            i <= n,
            r@ == v@.subrange(0, i as int),
        decreases n - i,
    {
        push_char(&mut r, v[i]);
        assert(r@ =~= v@.subrange(0, i + 1));
        i = i + 1;
    }
    assert(r@ =~= v@);
    r
}

/// Character-wise equality of two string slices.
pub fn str_eq(a: &str, b: &str) -> (r: bool)
    ensures
        r == (a@ == b@),
{
    let na: usize = a.unicode_len();
    let nb: usize = b.unicode_len();
    if na != nb {
        return false;
    }
    let mut i: usize = 0;
    while i < na
        invariant
            na == a@.len(),
            na == b@.len(),
            i <= na,
            forall|j: int| 0 <= j < i ==> a@[j] == b@[j],
        decreases na - i,
    {
        if a.get_char(i) != b.get_char(i) {
            return false;
        }
        i = i + 1;
    }
    assert(a@ =~= b@);
    true
}

/// Character-wise equality of two character slices.
pub fn chars_eq(a: &[char], b: &[char]) -> (r: bool)
    ensures
        r == (a@ == b@),
{
    let na: usize = a.len();
    let nb: usize = b.len();
    if na != nb {
        return false;
    }
    let mut i: usize = 0;
    while i < na
        invariant
            na == a@.len(),
            na == b@.len(),
            i <= na,
            forall|j: int| 0 <= j < i ==> a@[j] == b@[j],
        decreases na - i,
    {
        if a[i] != b[i] {
            return false;
        }
        i = i + 1;
    }
    assert(a@ =~= b@);
    true
}

/// Copy of `v[a..b]` as an owned vector.
pub fn char_range(v: &[char], a: usize, b: usize) -> (r: Vec<char>)
    requires
        a <= b <= v@.len(),
    ensures
        r@ == v@.subrange(a as int, b as int),
{
    vstd::slice::slice_to_vec(vstd::slice::slice_subrange(v, a, b))
}

/// Index of the first occurrence of `c` in `v`, if any.
pub fn find_char(v: &[char], c: char) -> (r: Option<usize>)
    ensures
        match r {
            Some(i) => i < v@.len() && v@[i as int] == c && forall|j: int|
                0 <= j < i ==> v@[j] != c,
            None => forall|j: int| 0 <= j < v@.len() ==> v@[j] != c,
        },
{
    let n: usize = v.len();
    let mut i: usize = 0;
    while i < n
        invariant
            n == v@.len(),
            i <= n,
            forall|j: int| 0 <= j < i ==> v@[j] != c,
        decreases n - i,
    {
        if v[i] == c {
            return Some(i);
        }
        i = i + 1;
    }
    None
}

/// Whether `needle` occurs in `hay` as a contiguous subsequence.
pub open spec fn spec_contains(hay: Seq<char>, needle: Seq<char>) -> bool {
    exists|i: int|
        0 <= i && i + needle.len() <= hay.len() && #[trigger] hay.subrange(i, i + needle.len())
            == needle
}

/// Whether `needle` occurs at position `i` of `hay`.
fn match_at(hay: &[char], needle: &[char], i: usize) -> (r: bool)
    requires
        i + needle@.len() <= hay@.len(),
    ensures
        r == (hay@.subrange(i as int, i + needle@.len()) == needle@),
{
    let m: usize = needle.len();
    let n: usize = hay.len();
    let mut k: usize = 0;
    while k < m
        invariant
            m == needle@.len(),
            n == hay@.len(),
            i + m <= n,
            k <= m,
            forall|j: int| 0 <= j < k ==> hay@[i + j] == needle@[j],
        decreases m - k,
    {
        if hay[i + k] != needle[k] {
            assert(hay@.subrange(i as int, i + needle@.len())[k as int] != needle@[k as int]);
            return false;
        }
        k = k + 1;
    }
    assert(hay@.subrange(i as int, i + needle@.len()) =~= needle@);
    true
}

/// Substring search with an exact contract.
pub fn contains_chars(hay: &[char], needle: &[char]) -> (r: bool)
    ensures
        r == spec_contains(hay@, needle@),
{
    let n: usize = hay.len();
    let m: usize = needle.len();
    if m > n {
        return false;
    }
    if m == 0 {
        assert(spec_contains(hay@, needle@)) by {
            assert(hay@.subrange(0, 0 + needle@.len() as int) =~= needle@);
        }
        return true;
    }
    let mut i: usize = 0;
    while i <= n - m
        invariant
            n == hay@.len(),
            m == needle@.len(),
            0 < m <= n,
            i <= n - m + 1,
            forall|j: int|
                0 <= j < i ==> #[trigger] hay@.subrange(j, j + needle@.len()) != needle@,
        decreases n - i,
    {
        if match_at(hay, needle, i) {
            assert(spec_contains(hay@, needle@)) by {
                assert(hay@.subrange(i as int, i + needle@.len()) == needle@);
            }
            return true;
        }
        i = i + 1;
    }
    assert(forall|j: int|
        0 <= j && j + needle@.len() <= hay@.len() ==> #[trigger] hay@.subrange(
            j,
            j + needle@.len(),
        ) != needle@);
    false
}

/// Substring search over string slices.
pub fn str_contains(hay: &str, needle: &str) -> (r: bool)
    ensures
        r == spec_contains(hay@, needle@),
{
    let h: Vec<char> = str_to_chars(hay);
    let n: Vec<char> = str_to_chars(needle);
    contains_chars(h.as_slice(), n.as_slice())
}

/// Whether `p` is a prefix of `s`.
pub open spec fn spec_starts_with(s: Seq<char>, p: Seq<char>) -> bool {
    p.len() <= s.len() && s.subrange(0, p.len() as int) == p
}

pub fn starts_with_chars(s: &[char], p: &[char]) -> (r: bool)
    ensures
        r == spec_starts_with(s@, p@),
{
    if p.len() > s.len() {
        return false;
    }
    match_at(s, p, 0)
}

/// The set of whitespace characters.
pub open spec fn ws_set() -> Set<char> {
    Set::new(|c: char| is_space(c))
}

/// `s` with every leading character drawn from `cs` removed.
pub open spec fn spec_trim_start_in(s: Seq<char>, cs: Set<char>) -> Seq<char>
    decreases s.len(),
{
    if s.len() > 0 && cs.contains(s[0]) {
        spec_trim_start_in(s.subrange(1, s.len() as int), cs)
    } else {
        s
    }
}

/// `s` with every trailing character drawn from `cs` removed.
pub open spec fn spec_trim_end_in(s: Seq<char>, cs: Set<char>) -> Seq<char>
    decreases s.len(),
{
    if s.len() > 0 && cs.contains(s[s.len() - 1]) {
        spec_trim_end_in(s.drop_last(), cs)
    } else {
        s
    }
}

/// `s` with whitespace removed from both ends, as `str::trim` leaves it.
pub open spec fn spec_trim(s: Seq<char>) -> Seq<char> {
    spec_trim_end_in(spec_trim_start_in(s, ws_set()), ws_set())
}

proof fn lemma_trim_start_in_at(s: Seq<char>, cs: Set<char>, i: int)
    requires
        0 <= i <= s.len(),
        forall|j: int| 0 <= j < i ==> cs.contains(#[trigger] s[j]),
        i == s.len() || !cs.contains(s[i]),
    ensures
        spec_trim_start_in(s, cs) =~= s.subrange(i, s.len() as int),
    decreases i,
{
    if i == 0 {
        assert(s.subrange(0, s.len() as int) =~= s);
    } else {
        let t = s.subrange(1, s.len() as int);
        assert(forall|j: int| 0 <= j < i - 1 ==> cs.contains(#[trigger] t[j]));
        lemma_trim_start_in_at(t, cs, i - 1);
        assert(t.subrange(i - 1, t.len() as int) =~= s.subrange(i, s.len() as int));
    }
}

proof fn lemma_trim_end_in_at(s: Seq<char>, cs: Set<char>, i: int)
    requires
        0 <= i <= s.len(),
        forall|j: int| i <= j < s.len() ==> cs.contains(#[trigger] s[j]),
        i == 0 || !cs.contains(s[i - 1]),
    ensures
        spec_trim_end_in(s, cs) =~= s.subrange(0, i),
    decreases s.len(),
{
    if i == s.len() {
        assert(s.subrange(0, s.len() as int) =~= s);
    } else {
        let t = s.drop_last();
        assert(forall|j: int| i <= j < t.len() ==> cs.contains(#[trigger] t[j]));
        lemma_trim_end_in_at(t, cs, i);
        assert(t.subrange(0, i) =~= s.subrange(0, i));
    }
}

/// Whitespace trimmed from both ends.
pub fn trim_chars(v: &[char]) -> (r: Vec<char>)
    ensures
        r@ == spec_trim(v@),
{
    let n: usize = v.len();
    let mut a: usize = 0;
    while a < n && is_space_char(v[a])
        invariant
            n == v@.len(),
            a <= n,
            forall|j: int| 0 <= j < a ==> is_space(#[trigger] v@[j]),
        decreases n - a,
    {
        a = a + 1;
    }
    proof {
        lemma_trim_start_in_at(v@, ws_set(), a as int);
    }
    let ghost t = v@.subrange(a as int, n as int);
    let mut b: usize = n;
    while b > a && is_space_char(v[b - 1])
        invariant
            n == v@.len(),
            a <= b <= n,
            t == v@.subrange(a as int, n as int),
            forall|j: int| b <= j < n ==> is_space(#[trigger] v@[j]),
        decreases b,
    {
        b = b - 1;
    }
    proof {
        assert(forall|j: int|
            b - a <= j < t.len() ==> is_space(#[trigger] t[j]) && cs_has(ws_set(), t[j]));
        lemma_trim_end_in_at(t, ws_set(), b - a as int);
        assert(t.subrange(0, b - a as int) =~= v@.subrange(a as int, b as int));
    }
    char_range(v, a, b)
}

/// Set membership restated so that quantified invariants have a stable shape.
pub open spec fn cs_has(cs: Set<char>, c: char) -> bool {
    cs.contains(c)
}

/// Trailing copies of `c` removed.
pub fn trim_end_char(v: &[char], c: char) -> (r: Vec<char>)
    ensures
        r@ == spec_trim_end_in(v@, set![c]),
{
    let n: usize = v.len();
    let mut b: usize = n;
    while b > 0 && v[b - 1] == c
        invariant
            n == v@.len(),
            b <= n,
            forall|j: int| b <= j < n ==> v@[j] == c,
        decreases b,
    {
        b = b - 1;
    }
    proof {
        lemma_trim_end_in_at(v@, set![c], b as int);
    }
    char_range(v, 0, b)
}

/// Trailing carriage returns and line feeds removed.
pub fn trim_end_crlf(v: &[char]) -> (r: Vec<char>)
    ensures
        r@ == spec_trim_end_in(v@, set!['\n', '\r']),
{
    let n: usize = v.len();
    let mut b: usize = n;
    while b > 0 && (v[b - 1] == '\n' || v[b - 1] == '\r')
        invariant
            n == v@.len(),
            b <= n,
            forall|j: int| b <= j < n ==> v@[j] == '\n' || v@[j] == '\r',
        decreases b,
    {
        b = b - 1;
    }
    proof {
        lemma_trim_end_in_at(v@, set!['\n', '\r'], b as int);
    }
    char_range(v, 0, b)
}

/// Trailing whitespace removed.
pub fn trim_end_ws(v: &[char]) -> (r: Vec<char>)
    ensures
        r@ == spec_trim_end_in(v@, ws_set()),
{
    let n: usize = v.len();
    let mut b: usize = n;
    while b > 0 && is_space_char(v[b - 1])
        invariant
            n == v@.len(),
            b <= n,
            forall|j: int| b <= j < n ==> is_space(#[trigger] v@[j]),
        decreases b,
    {
        b = b - 1;
    }
    proof {
        lemma_trim_end_in_at(v@, ws_set(), b as int);
    }
    char_range(v, 0, b)
}

/// The remainder of `s` after the prefix `p`, when `p` is indeed a prefix.
pub fn strip_prefix_chars(s: &[char], p: &[char]) -> (r: Option<Vec<char>>)
    ensures
        match r {
            Some(rest) => spec_starts_with(s@, p@) && rest@ == s@.subrange(
                p@.len() as int,
                s@.len() as int,
            ),
            None => !spec_starts_with(s@, p@),
        },
{
    if starts_with_chars(s, p) {
        Some(char_range(s, p.len(), s.len()))
    } else {
        None
    }
}

/// The longest whitespace-free run at the head of `s`.
pub open spec fn spec_head_token(s: Seq<char>) -> Seq<char>
    decreases s.len(),
{
    if s.len() == 0 || is_space(s[0]) {
        Seq::empty()
    } else {
        seq![s[0]] + spec_head_token(s.subrange(1, s.len() as int))
    }
}

/// The first whitespace-separated token of `s`: what
/// `split_whitespace().next()` yields, or empty when there is none.
pub open spec fn spec_first_token(s: Seq<char>) -> Seq<char> {
    spec_head_token(spec_trim_start_in(s, ws_set()))
}

proof fn lemma_head_token_at(s: Seq<char>, i: int)
    requires
        0 <= i <= s.len(),
        forall|j: int| 0 <= j < i ==> !is_space(#[trigger] s[j]),
        i == s.len() || is_space(s[i]),
    ensures
        spec_head_token(s) =~= s.subrange(0, i),
    decreases i,
{
    if i == 0 {
    } else {
        let t = s.subrange(1, s.len() as int);
        lemma_head_token_at(t, i - 1);
        assert(seq![s[0]] + t.subrange(0, i - 1) =~= s.subrange(0, i));
    }
}

/// The first whitespace-separated token of `v`.
pub fn first_token(v: &[char]) -> (r: Vec<char>)
    ensures
        r@ == spec_first_token(v@),
{
    let n: usize = v.len();
    let mut a: usize = 0;
    while a < n && is_space_char(v[a])
        invariant
            n == v@.len(),
            a <= n,
            forall|j: int| 0 <= j < a ==> is_space(#[trigger] v@[j]),
        decreases n - a,
    {
        a = a + 1;
    }
    proof {
        lemma_trim_start_in_at(v@, ws_set(), a as int);
    }
    let ghost t = v@.subrange(a as int, n as int);
    let mut b: usize = a;
    while b < n && !is_space_char(v[b])
        invariant
            n == v@.len(),
            a <= b <= n,
            forall|j: int| a <= j < b ==> !is_space(#[trigger] v@[j]),
        decreases n - b,
    {
        b = b + 1;
    }
    proof {
        assert(forall|j: int| 0 <= j < b - a ==> !is_space(#[trigger] t[j]));
        lemma_head_token_at(t, b - a as int);
        assert(t.subrange(0, b - a as int) =~= v@.subrange(a as int, b as int));
    }
    char_range(v, a, b)
}

/// Index of the first `c` in `s`, or `s.len()` when there is none.
pub open spec fn find_ch(s: Seq<char>, c: char) -> int
    decreases s.len(),
{
    if s.len() == 0 {
        0
    } else if s[0] == c {
        0
    } else {
        1 + find_ch(s.subrange(1, s.len() as int), c)
    }
}

pub proof fn lemma_find_ch_bounds(s: Seq<char>, c: char)
    ensures
        0 <= find_ch(s, c) <= s.len(),
    decreases s.len(),
{
    if s.len() > 0 && s[0] != c {
        lemma_find_ch_bounds(s.subrange(1, s.len() as int), c);
    }
}

pub proof fn lemma_find_ch_at(s: Seq<char>, c: char, i: int)
    requires
        0 <= i <= s.len(),
        forall|j: int| 0 <= j < i ==> s[j] != c,
        i == s.len() || s[i] == c,
    ensures
        find_ch(s, c) == i,
    decreases i,
{
    if s.len() > 0 && i > 0 {
        let t = s.subrange(1, s.len() as int);
        lemma_find_ch_at(t, c, i - 1);
    }
}


/// The pieces of `s` split at `c`, the way `str::split` yields them: an
/// empty input is one empty piece, and separators at the edges yield
/// empty pieces.
pub open spec fn spec_split(s: Seq<char>, c: char) -> Seq<Seq<char>>
    decreases s.len(),
{
    let i = find_ch(s, c);
    if 0 <= i < s.len() {
        seq![s.subrange(0, i)] + spec_split(s.subrange(i + 1, s.len() as int), c)
    } else {
        seq![s]
    }
}

/// Splits at a separator character.
pub fn split_char(v: &[char], c: char) -> (r: Vec<String>)
    ensures
        r.deep_view() == spec_split(v@, c),
{
    let n: usize = v.len();
    let mut out: Vec<String> = Vec::new();
    let ghost mut outm: Seq<Seq<char>> = Seq::empty();
    let mut pos: usize = 0;
    let mut pending: bool = true;
    proof {
        assert(v@.subrange(0, n as int) =~= v@);
    }
    while pending
        invariant
            n == v@.len(),
            pos <= n,
            out.deep_view() == outm,
            pending ==> spec_split(v@, c) == outm + spec_split(
                v@.subrange(pos as int, n as int),
                c,
            ),
            !pending ==> outm == spec_split(v@, c),
        decreases n - pos, if pending {
            1int
        } else {
            0int
        },
    {
        let ghost s = v@.subrange(pos as int, n as int);
        let ghost outpre = outm;
        let mut i: usize = pos;
        while i < n && v[i] != c
            invariant
                pos <= i <= n,
                n == v@.len(),
                forall|j: int| pos <= j < i ==> v@[j] != c,
            decreases n - i,
        {
            i = i + 1;
        }
        proof {
            assert(forall|j: int| 0 <= j < i - pos ==> s[j] != c);
            if i < n {
                assert(s[i - pos] == c);
            }
            lemma_find_ch_at(s, c, i - pos as int);
        }
        let piece = char_range(v, pos, i);
        proof {
            assert(piece@ =~= s.subrange(0, i - pos as int));
        }
        out.push(chars_to_string(piece.as_slice()));
        proof {
            outm = outm.push(piece@);
            assert(out.deep_view().len() == out@.len());
            assert forall|a: int|
                0 <= a < out.deep_view().len() implies #[trigger] out.deep_view()[a]
                == outm[a] by {
                assert(out.deep_view()[a] == out@[a]@);
                if a < outpre.len() {
                    assert(outpre[a] == out@[a]@);
                }
            }
            assert(out.deep_view() =~= outm);
        }
        if i < n {
            proof {
                assert(v@.subrange(i + 1, n as int) =~= s.subrange(
                    i + 1 - pos as int,
                    s.len() as int,
                ));
                assert(spec_split(s, c) == seq![piece@] + spec_split(
                    s.subrange(i + 1 - pos as int, s.len() as int),
                    c,
                ));
                assert(outpre + spec_split(s, c) =~= outm + spec_split(
                    v@.subrange(i + 1, n as int),
                    c,
                ));
            }
            pos = i + 1;
        } else {
            proof {
                assert(s.subrange(0, i - pos as int) =~= s);
                assert(spec_split(s, c) == seq![s]);
                assert(outpre + spec_split(s, c) =~= outm);
            }
            pending = false;
        }
    }
    out
}

} // verus!