//! Character-level text handling: whitespace, trimming, prefixes, searching.
//!
//! Text is handled as sequences of `char`, the view that Verus gives to `str`
//! and `String`.
use vstd::prelude::*;

verus! {

/// Whether `c` has the Unicode `White_Space` property, the set of characters
/// that `char::is_whitespace`, `str::trim` and `str::split_whitespace` treat
/// as whitespace.
pub open spec fn is_space(c: char) -> bool {
    ||| ('\u{9}' <= c && c <= '\u{d}')
    ||| c == ' '
    ||| c == '\u{85}'
    ||| c == '\u{a0}'
    ||| c == '\u{1680}'
    ||| ('\u{2000}' <= c && c <= '\u{200a}')
    ||| c == '\u{2028}'
    ||| c == '\u{2029}'
    ||| c == '\u{202f}'
    ||| c == '\u{205f}'
    ||| c == '\u{3000}'
}

/// Whether `c` is an ASCII decimal digit.
pub open spec fn is_digit(c: char) -> bool {
    '0' <= c && c <= '9'
}

/// `s` without its leading whitespace.
pub open spec fn trim_start(s: Seq<char>) -> Seq<char>
    decreases s.len(),
{
    if s.len() > 0 && is_space(s[0]) {
        trim_start(s.drop_first())
    } else {
        s
    }
}

/// `s` without its trailing whitespace.
pub open spec fn trim_end(s: Seq<char>) -> Seq<char>
    decreases s.len(),
{
    if s.len() > 0 && is_space(s.last()) {
        trim_end(s.drop_last())
    } else {
        s
    }
}

/// `s` without leading and trailing whitespace, as `str::trim` gives it.
pub open spec fn trim(s: Seq<char>) -> Seq<char> {
    trim_end(trim_start(s))
}

/// What is left of `s` after the prefix `p`, if `s` starts with `p`.
pub open spec fn strip_prefix(s: Seq<char>, p: Seq<char>) -> Option<Seq<char>> {
    if p.len() <= s.len() && s.take(p.len() as int) == p {
        Some(s.skip(p.len() as int))
    } else {
        None
    }
}

/// Whether `s` ends with `suffix`.
pub open spec fn ends_with(s: Seq<char>, suffix: Seq<char>) -> bool {
    suffix.len() <= s.len() && s.skip(s.len() - suffix.len()) == suffix
}

/// Whether `w` occurs in `s` starting at index `i`.
pub open spec fn occurs_at<A>(s: Seq<A>, w: Seq<A>, i: int) -> bool {
    0 <= i && i + w.len() <= s.len() && s.subrange(i, i + w.len()) == w
}

/// Whether `w` occurs anywhere in `s`, as `str::contains` decides it.
pub open spec fn contains<A>(s: Seq<A>, w: Seq<A>) -> bool {
    exists|i: int| occurs_at(s, w, i)
}

/// The first index at or after `from` where `w` occurs in `s`.
pub open spec fn find_from<A>(s: Seq<A>, w: Seq<A>, from: int) -> Option<int>
    decreases s.len() + 1 - from,
{
    if from < 0 || from + w.len() > s.len() {
        None
    } else if occurs_at(s, w, from) {
        Some(from)
    } else {
        find_from(s, w, from + 1)
    }
}

/// The first index where `w` occurs in `s`.
pub open spec fn find<A>(s: Seq<A>, w: Seq<A>) -> Option<int> {
    find_from(s, w, 0)
}

/// Whether `c` is whitespace (see [`is_space`]).
pub fn is_whitespace(c: char) -> (b: bool)
    ensures
        b == is_space(c),
{
    ('\u{9}' <= c && c <= '\u{d}') || c == ' ' || c == '\u{85}' || c == '\u{a0}' || c
        == '\u{1680}' || ('\u{2000}' <= c && c <= '\u{200a}') || c == '\u{2028}' || c
        == '\u{2029}' || c == '\u{202f}' || c == '\u{205f}' || c == '\u{3000}'
}

/// Gives the characters of a string, in order.
pub fn chars_of(s: &str) -> (v: Vec<char>)
    ensures
        v@ == s@,
{
    let mut v: Vec<char> = Vec::new();
    for c in it: s.chars()
        invariant
            v@ == it.seq().take(it.index() as int),
    {
        v.push(c);
    }
    v
}

/// Collects characters into a `String` with `String::from_iter`: the string
/// holds exactly those characters, in order.
#[verifier::external_body]
pub(crate) fn string_from_chars(chars: Vec<char>) -> (s: String)
    ensures
        s@ == chars@,
{
    String::from_iter(chars)
}

/// The characters of `s` from index `from` up to (not including) `to`.
pub fn sub_chars(s: &Vec<char>, from: usize, to: usize) -> (r: Vec<char>)
    requires
        from <= to <= s.len(),
    ensures
        r@ == s@.subrange(from as int, to as int),
{
    let mut r: Vec<char> = Vec::new();
    let mut i = from;
    while i < to
        invariant
            from <= i <= to <= s.len(),
            r@ == s@.subrange(from as int, i as int),
        decreases to - i,
    {
        r.push(s[i]);
        i = i + 1;
    }
    r
}

/// Whether two character sequences are equal.
pub fn chars_eq(a: &Vec<char>, b: &Vec<char>) -> (r: bool)
    ensures
        r == (a@ == b@),
{
    if a.len() != b.len() {
        return false;
    }
    let mut i: usize = 0;
    while i < a.len()
        invariant
            a.len() == b.len(),
            i <= a.len(),
            forall|k: int| 0 <= k < i ==> a@[k] == b@[k],
        decreases a.len() - i,
    {
        if a[i] != b[i] {
            return false;
        }
        i = i + 1;
    }
    assert(a@ =~= b@);
    true
}

/// Whether `w` occurs in `s` at index `i`.
pub fn chars_occur_at(s: &Vec<char>, w: &Vec<char>, i: usize) -> (r: bool)
    ensures
        r == occurs_at(s@, w@, i as int),
{
    if i > s.len() || w.len() > s.len() - i {
        return false;
    }
    let mut k: usize = 0;
    while k < w.len()
        invariant
            i + w.len() <= s.len(),
            k <= w.len(),
            forall|m: int| 0 <= m < k ==> s@[i + m] == w@[m],
        decreases w.len() - k,
    {
        if s[i + k] != w[k] {
            assert(s@.subrange(i as int, i + w.len())[k as int] != w@[k as int]);
            return false;
        }
        k = k + 1;
    }
    assert(s@.subrange(i as int, i + w.len()) =~= w@);
    true
}

/// The first index at or after `from` where `w` occurs in `s`.
pub fn chars_find_from(s: &Vec<char>, w: &Vec<char>, from: usize) -> (r: Option<usize>)
    ensures
        r matches Some(i) ==> find_from(s@, w@, from as int) == Some(i as int),
        r is None ==> find_from(s@, w@, from as int) is None,
{
    let mut i = from;
    while i <= s.len() && w.len() <= s.len() - i
        invariant
            from <= i,
            find_from(s@, w@, from as int) == find_from(s@, w@, i as int),
        decreases s.len() + 1 - i,
    {
        if chars_occur_at(s, w, i) {
            return Some(i);
        }
        if i == s.len() {
            assert(w@.len() == 0 && occurs_at(s@, w@, i as int)) by {
                assert(s@.subrange(i as int, i as int) =~= w@);
            }
            return None;
        }
        i = i + 1;
    }
    assert(find_from(s@, w@, i as int) is None);
    None
}

/// Whether `w` occurs anywhere in `s`.
pub fn chars_contain(s: &Vec<char>, w: &Vec<char>) -> (r: bool)
    ensures
        r == contains(s@, w@),
{
    let found = chars_find_from(s, w, 0);
    proof {
        lemma_find_from_some(s@, w@, 0);
        lemma_find_from_none(s@, w@, 0);
    }
    found.is_some()
}

/// Whether `s` ends with `suffix`.
pub fn chars_end_with(s: &Vec<char>, suffix: &Vec<char>) -> (r: bool)
    ensures
        r == ends_with(s@, suffix@),
{
    if suffix.len() > s.len() {
        return false;
    }
    let r = chars_occur_at(s, suffix, s.len() - suffix.len());
    proof {
        let i = s.len() - suffix.len();
        assert(s@.subrange(i as int, i + suffix.len()) =~= s@.skip(i as int));
    }
    r
}

/// What is left of `s` after the prefix `p`, if `s` starts with `p`.
pub fn chars_strip_prefix(s: &Vec<char>, p: &Vec<char>) -> (r: Option<Vec<char>>)
    ensures
        r matches Some(v) ==> strip_prefix(s@, p@) == Some(v@),
        r is None ==> strip_prefix(s@, p@) is None,
{
    if chars_occur_at(s, p, 0) {
        assert(s@.subrange(0, p.len() as int) =~= s@.take(p.len() as int));
        let rest = sub_chars(s, p.len(), s.len());
        assert(rest@ =~= s@.skip(p.len() as int));
        Some(rest)
    } else {
        proof {
            if p.len() <= s.len() && s@.take(p.len() as int) == p@ {
                assert(s@.subrange(0, p.len() as int) =~= s@.take(p.len() as int));
            }
        }
        None
    }
}

/// Leading whitespace of `s` up to index `i`, followed by a non-whitespace
/// character or the end, is what `trim_start` removes.
pub proof fn lemma_trim_start(s: Seq<char>, i: int)
    requires
        0 <= i <= s.len(),
        forall|k: int| 0 <= k < i ==> is_space(s[k]),
        i == s.len() || !is_space(s[i]),
    ensures
        trim_start(s) == s.skip(i),
    decreases i,
{
    if i == 0 {
        assert(s.skip(0) =~= s);
    } else {
        lemma_trim_start(s.drop_first(), i - 1);
        assert(s.drop_first().skip(i - 1) =~= s.skip(i));
    }
}

/// Trailing whitespace of `s` from index `j`, preceded by a non-whitespace
/// character or the start, is what `trim_end` removes.
pub proof fn lemma_trim_end(s: Seq<char>, j: int)
    requires
        0 <= j <= s.len(),
        forall|k: int| j <= k < s.len() ==> is_space(s[k]),
        j == 0 || !is_space(s[j - 1]),
    ensures
        trim_end(s) == s.take(j),
    decreases s.len() - j,
{
    if j == s.len() {
        assert(s.take(j) =~= s);
    } else {
        lemma_trim_end(s.drop_last(), j);
        assert(s.drop_last().take(j) =~= s.take(j));
    }
}

/// `s` without leading and trailing whitespace.
pub fn trim_chars(s: &Vec<char>) -> (r: Vec<char>)
    ensures
        r@ == trim(s@),
{
    let mut i: usize = 0;
    while i < s.len() && is_whitespace(s[i])
        invariant
            i <= s.len(),
            forall|k: int| 0 <= k < i ==> is_space(s@[k]),
        decreases s.len() - i,
    {
        i = i + 1;
    }
    let mut j: usize = s.len();
    while j > i && is_whitespace(s[j - 1])
        invariant
            i <= j <= s.len(),
            forall|k: int| j <= k < s.len() ==> is_space(s@[k]),
        decreases j,
    {
        j = j - 1;
    }
    proof {
        lemma_trim_start(s@, i as int);
        let t = s@.skip(i as int);
        assert forall|k: int| j - i <= k < t.len() implies is_space(t[k]) by {
            assert(t[k] == s@[i + k]);
        }
        lemma_trim_end(t, j - i);
        assert(t.take(j - i) =~= s@.subrange(i as int, j as int));
    }
    sub_chars(s, i, j)
}

/// An index-by-index description of the first occurrence found from `from`.
pub proof fn lemma_find_from_some<A>(s: Seq<A>, w: Seq<A>, from: int)
    ensures
        find_from(s, w, from) matches Some(i) ==> from <= i && occurs_at(s, w, i) && forall|
            k: int,
        |
            from <= k < i ==> !occurs_at(s, w, k),
    decreases s.len() + 1 - from,
{
    if from < 0 || from + w.len() > s.len() {
    } else if occurs_at(s, w, from) {
    } else {
        lemma_find_from_some(s, w, from + 1);
    }
}

/// No occurrence is found from `from` exactly when there is none at or after it.
pub proof fn lemma_find_from_none<A>(s: Seq<A>, w: Seq<A>, from: int)
    requires
        from >= 0,
    ensures
        find_from(s, w, from) is None <==> forall|k: int| from <= k ==> !occurs_at(s, w, k),
    decreases s.len() + 1 - from,
{
    if from + w.len() > s.len() {
    } else if occurs_at(s, w, from) {
    } else {
        lemma_find_from_none(s, w, from + 1);
        if find_from(s, w, from) is None {
            assert forall|k: int| from <= k implies !occurs_at(s, w, k) by {
                if k > from {
                    assert(from + 1 <= k);
                }
            }
        }
    }
}

/// `trim_start` drops a prefix of whitespace and stops at a non-whitespace
/// character.
pub proof fn lemma_trim_start_index(s: Seq<char>) -> (i: int)
    ensures
        0 <= i <= s.len(),
        trim_start(s) == s.skip(i),
        i == s.len() || !is_space(s[i]),
    decreases s.len(),
{
    if s.len() > 0 && is_space(s[0]) {
        let k = lemma_trim_start_index(s.drop_first());
        assert(s.drop_first().skip(k) =~= s.skip(k + 1));
        k + 1
    } else {
        assert(s.skip(0) =~= s);
        0
    }
}

/// `trim_end` drops a suffix of whitespace and stops at a non-whitespace
/// character.
pub proof fn lemma_trim_end_index(s: Seq<char>) -> (j: int)
    ensures
        0 <= j <= s.len(),
        trim_end(s) == s.take(j),
        j == 0 || !is_space(s[j - 1]),
    decreases s.len(),
{
    if s.len() > 0 && is_space(s.last()) {
        let k = lemma_trim_end_index(s.drop_last());
        assert(s.drop_last().take(k) =~= s.take(k));
        k
    } else {
        assert(s.take(s.len() as int) =~= s);
        s.len() as int
    }
}

/// A trimmed text is a piece of the text that starts and ends with a
/// non-whitespace character, if it is not empty.
pub proof fn lemma_trim_shape(s: Seq<char>) -> (ij: (int, int))
    ensures
        0 <= ij.0 <= ij.1 <= s.len(),
        trim(s) == s.subrange(ij.0, ij.1),
        trim(s).len() > 0 ==> !is_space(trim(s)[0]) && !is_space(trim(s).last()),
{
    let i = lemma_trim_start_index(s);
    let t = s.skip(i);
    let j = lemma_trim_end_index(t);
    assert(t.take(j) =~= s.subrange(i, i + j));
    if j > 0 {
        assert(trim(s)[0] == s[i]);
        assert(trim(s).last() == t[j - 1]);
    }
    (i, i + j)
}

} // verus!
