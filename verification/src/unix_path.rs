//! Unix paths, taken apart the way `std::path` takes them apart on Unix
//! systems: `/` separates components, empty and `.` components are skipped
//! (a leading `.` stands for the current directory), and a leading `/` is
//! the root.
//!
//! A path is a character sequence; the paths derived from it (its parent,
//! its ancestors) are prefixes of it, given by their length.
use crate::text::{chars_end_with, chars_of, ends_with, string_from_chars, sub_chars};
use vstd::prelude::*;

verus! {

/// Whether the path `s` starts at the root.
pub open spec fn has_root(s: Seq<char>) -> bool {
    s.len() > 0 && s[0] == '/'
}

/// Whether the relative path `s` starts with a `.` component.
pub open spec fn starts_with_cur_dir(s: Seq<char>) -> bool {
    !has_root(s) && s.len() > 0 && s[0] == '.' && (s.len() == 1 || s[1] == '/')
}

/// Where the named components of `s` begin: after the root or the leading
/// `.` component, if any.
pub open spec fn body_start(s: Seq<char>) -> int {
    if has_root(s) || starts_with_cur_dir(s) {
        1
    } else {
        0
    }
}

/// The index of the last `/` in `s[lb..end)`, or `lb - 1` if there is none.
pub open spec fn last_sep(s: Seq<char>, lb: int, end: int) -> int
    decreases end - lb,
{
    if end <= lb {
        lb - 1
    } else if s[end - 1] == '/' {
        end - 1
    } else {
        last_sep(s, lb, end - 1)
    }
}

/// Whether a piece between separators is skipped: it is empty or `.`.
pub open spec fn is_skipped(p: Seq<char>) -> bool {
    p.len() == 0 || p == seq!['.']
}

/// The last piece of `s[lb..end)` between separators that is not skipped,
/// as its start and end.
pub open spec fn last_piece(s: Seq<char>, lb: int, end: int) -> Option<(int, int)>
    decreases end - lb + 1,
{
    if end <= lb {
        None
    } else {
        let k = last_sep(s, lb, end);
        proof {
            lemma_last_sep(s, lb, end);
        }
        if is_skipped(s.subrange(k + 1, end)) {
            last_piece(s, lb, k)
        } else {
            Some((k + 1, end))
        }
    }
}

/// The name of the last component of the path `s`, if that component is a
/// name (`Path::file_name`): `None` for a path that is empty, the root, `.`
/// or ends in `..`.
pub open spec fn file_name(s: Seq<char>) -> Option<Seq<char>> {
    match last_piece(s, body_start(s), s.len() as int) {
        Some((i, j)) => if s.subrange(i, j) == seq!['.', '.'] {
            None
        } else {
            Some(s.subrange(i, j))
        },
        None => None,
    }
}

/// The length of the parent of the path `s` (`Path::parent`), a prefix of
/// `s` without its last component and the separators before it; `None` for
/// an empty path and for the root.
pub open spec fn parent_len(s: Seq<char>) -> Option<int> {
    let lb = body_start(s);
    match last_piece(s, lb, s.len() as int) {
        Some((i, _)) => {
            let k = if i > lb {
                i - 1
            } else {
                lb
            };
            Some(
                match last_piece(s, lb, k) {
                    Some((_, j)) => j,
                    None => lb,
                },
            )
        },
        None => if starts_with_cur_dir(s) {
            Some(0)
        } else {
            None
        },
    }
}

/// Whether the prefix of length `m` of `s` is reached from the prefix of
/// length `n` by taking parents (zero or more times).
pub open spec fn is_ancestor(s: Seq<char>, n: int, m: int) -> bool
    decreases n,
{
    if n < 0 || n > s.len() {
        false
    } else if m == n {
        true
    } else {
        match parent_len(s.take(n)) {
            Some(p) => {
                proof {
                    lemma_parent_len(s.take(n));
                }
                is_ancestor(s, p, m)
            },
            None => false,
        }
    }
}

/// The extension that marks an application bundle.
pub open spec fn bundle_suffix() -> Seq<char> {
    seq!['.', 'a', 'p', 'p']
}

/// Whether the path `t` names an application bundle: its file name ends
/// with `.app`.
pub open spec fn is_app_bundle(t: Seq<char>) -> bool {
    file_name(t) matches Some(n) && ends_with(n, bundle_suffix())
}

/// Walking up from the prefix of length `n` of `exe`, the bundle seen last,
/// that is the one nearest the root.
pub open spec fn outermost_bundle_from(exe: Seq<char>, n: int) -> Option<int>
    decreases n,
{
    if n < 0 || n > exe.len() {
        None
    } else {
        let above = match parent_len(exe.take(n)) {
            Some(p) => {
                proof {
                    lemma_parent_len(exe.take(n));
                }
                outermost_bundle_from(exe, p)
            },
            None => None,
        };
        if above is Some {
            above
        } else if is_app_bundle(exe.take(n)) {
            Some(n)
        } else {
            None
        }
    }
}

/// The extension of a file name (`Path::extension`): what follows its last
/// `.`, unless that `.` is its first character.
pub open spec fn name_extension(name: Seq<char>) -> Option<Seq<char>> {
    match last_dot(name, name.len() as int) {
        Some(d) => if d == 0 {
            None
        } else {
            Some(name.skip(d + 1))
        },
        None => None,
    }
}

/// The index of the last `.` in `name[0..end)`.
pub open spec fn last_dot(name: Seq<char>, end: int) -> Option<int>
    decreases end,
{
    if end <= 0 {
        None
    } else if name[end - 1] == '.' {
        Some(end - 1)
    } else {
        last_dot(name, end - 1)
    }
}

/// The extension of the path `s`.
pub open spec fn extension(s: Seq<char>) -> Option<Seq<char>> {
    match file_name(s) {
        Some(n) => name_extension(n),
        None => None,
    }
}

/// The last separator lies in the range searched, and none follows it there.
pub proof fn lemma_last_sep(s: Seq<char>, lb: int, end: int)
    ensures
        end > lb ==> lb - 1 <= last_sep(s, lb, end) < end,
        end > lb && last_sep(s, lb, end) >= lb ==> s[last_sep(s, lb, end)] == '/',
        forall|k: int| last_sep(s, lb, end) < k < end && k >= lb ==> s[k] != '/',
    decreases end - lb,
{
    reveal_with_fuel(last_sep, 2);
    if end > lb && s[end - 1] != '/' {
        lemma_last_sep(s, lb, end - 1);
    }
}

/// The last piece lies in the range searched, after a separator or at its
/// start, and is not skipped.
pub proof fn lemma_last_piece(s: Seq<char>, lb: int, end: int)
    requires
        0 <= lb,
        end <= s.len(),
    ensures
        last_piece(s, lb, end) matches Some((i, j)) ==> lb <= i < j <= end && (i == lb || s[i
            - 1] == '/') && !is_skipped(s.subrange(i, j)),
    decreases end - lb + 1,
{
    if end > lb {
        lemma_last_sep(s, lb, end);
        let k = last_sep(s, lb, end);
        if is_skipped(s.subrange(k + 1, end)) {
            lemma_last_piece(s, lb, k);
        }
    }
}

/// The parent of a path is a strictly shorter prefix of it.
pub proof fn lemma_parent_len(s: Seq<char>)
    ensures
        parent_len(s) matches Some(p) ==> 0 <= p < s.len(),
{
    let lb = body_start(s);
    lemma_last_piece(s, lb, s.len() as int);
    if let Some((i, _)) = last_piece(s, lb, s.len() as int) {
        let k = if i > lb {
            i - 1
        } else {
            lb
        };
        lemma_last_piece(s, lb, k);
    }
}

/// The pieces of a path up to `end` do not depend on what follows `end`.
pub proof fn lemma_last_piece_prefix(s: Seq<char>, n: int, lb: int, end: int)
    requires
        0 <= lb,
        end <= n <= s.len(),
    ensures
        last_sep(s.take(n), lb, end) == last_sep(s, lb, end),
        last_piece(s.take(n), lb, end) == last_piece(s, lb, end),
    decreases end - lb + 1,
{
    if end > lb {
        if s[end - 1] != '/' {
            lemma_last_piece_prefix(s, n, lb, end - 1);
        }
        lemma_last_sep(s, lb, end);
        let k = last_sep(s, lb, end);
        assert(s.take(n).subrange(k + 1, end) =~= s.subrange(k + 1, end));
        if is_skipped(s.subrange(k + 1, end)) {
            lemma_last_piece_prefix(s, n, lb, k);
        }
    }
}

/// The file name of a path that ends in a `/` and a name is that name,
/// whatever comes before the `/`: a name that is not empty, holds no `/`
/// and is neither `.` nor `..`.
pub proof fn law_file_name_after_separator(dir: Seq<char>, base: Seq<char>)
    requires
        base.len() > 0,
        forall|k: int| 0 <= k < base.len() ==> base[k] != '/',
        base != seq!['.'],
        base != seq!['.', '.'],
    ensures
        file_name(dir + seq!['/'] + base) == Some(base),
{
    let s = dir + seq!['/'] + base;
    let p = dir.len() as int;
    let lb = body_start(s);
    let end = s.len() as int;
    assert(s[p] == '/');
    assert forall|k: int| p < k < end implies s[k] != '/' by {
        assert(s[k] == base[k - p - 1]);
    }
    lemma_last_sep(s, lb, end);
    let k = last_sep(s, lb, end);
    assert(k == p);
    assert(s.subrange(p + 1, end) =~= base);
}

/// The last `.` before `end` is at `d` when `d` holds a `.` and none
/// follows it before `end`.
pub proof fn lemma_last_dot_at(name: Seq<char>, d: int, end: int)
    requires
        0 <= d < end <= name.len(),
        name[d] == '.',
        forall|k: int| d < k < end ==> name[k] != '.',
    ensures
        last_dot(name, end) == Some(d),
    decreases end - d,
{
    if end - 1 > d {
        lemma_last_dot_at(name, d, end - 1);
    }
}

/// The extension of a path is what follows the last `.` of its file name,
/// whatever dots come before it: for a path that ends in a `/`, a stem, a
/// `.` and `ext`, it is `ext`; a file name that starts with its only `.`
/// has no extension. (`stem` is not empty and holds no `/`; `ext` is not
/// empty and holds neither `/` nor `.`.)
pub proof fn law_extension_after_last_dot(dir: Seq<char>, stem: Seq<char>, ext: Seq<char>)
    requires
        stem.len() > 0,
        forall|k: int| 0 <= k < stem.len() ==> stem[k] != '/',
        ext.len() > 0,
        forall|k: int| 0 <= k < ext.len() ==> ext[k] != '/' && ext[k] != '.',
    ensures
        extension(dir + seq!['/'] + stem + seq!['.'] + ext) == Some(ext),
        extension(dir + seq!['/'] + seq!['.'] + ext) is None,
{
    let base = stem + seq!['.'] + ext;
    let d = stem.len() as int;
    assert forall|k: int| 0 <= k < base.len() implies base[k] != '/' by {
        if k < d {
            assert(base[k] == stem[k]);
        } else if k > d {
            assert(base[k] == ext[k - d - 1]);
        }
    }
    law_file_name_after_separator(dir, base);
    assert(dir + seq!['/'] + base =~= dir + seq!['/'] + stem + seq!['.'] + ext);
    assert forall|k: int| d < k < base.len() implies base[k] != '.' by {
        assert(base[k] == ext[k - d - 1]);
    }
    lemma_last_dot_at(base, d, base.len() as int);
    assert(base.skip(d + 1) =~= ext);
    let hidden = seq!['.'] + ext;
    assert forall|k: int| 0 <= k < hidden.len() implies hidden[k] != '/' by {
        if k > 0 {
            assert(hidden[k] == ext[k - 1]);
        }
    }
    assert(hidden != seq!['.', '.']) by {
        assert(hidden[1] == ext[0]);
    }
    assert(hidden.len() > 1);
    law_file_name_after_separator(dir, hidden);
    assert(dir + seq!['/'] + hidden =~= dir + seq!['/'] + seq!['.'] + ext);
    assert forall|k: int| 0 < k < hidden.len() implies hidden[k] != '.' by {
        assert(hidden[k] == ext[k - 1]);
    }
    lemma_last_dot_at(hidden, 0, hidden.len() as int);
}

/// Where the named components of the prefix of length `n` of `s` begin.
fn body_start_of(s: &Vec<char>, n: usize) -> (lb: usize)
    requires
        n <= s.len(),
    ensures
        lb as int == body_start(s@.take(n as int)),
        lb <= n,
{
    if n > 0 && s[0] == '/' {
        1
    } else if n > 0 && s[0] == '.' && (n == 1 || s[1] == '/') {
        1
    } else {
        0
    }
}

/// One past the last `/` in `s[lb..end)` (`lb` if there is none).
fn after_last_sep(s: &Vec<char>, lb: usize, end: usize) -> (r: usize)
    requires
        lb <= end <= s.len(),
    ensures
        r as int == last_sep(s@, lb as int, end as int) + 1,
{
    let mut e = end;
    while e > lb && s[e - 1] != '/'
        invariant
            lb <= e <= end <= s.len(),
            last_sep(s@, lb as int, end as int) == last_sep(s@, lb as int, e as int),
        decreases e,
    {
        e = e - 1;
    }
    e
}

/// Whether `s[i..j)` is a skipped piece (empty or `.`).
fn piece_is_skipped(s: &Vec<char>, i: usize, j: usize) -> (r: bool)
    requires
        i <= j <= s.len(),
    ensures
        r == is_skipped(s@.subrange(i as int, j as int)),
{
    if i == j {
        true
    } else if j - i == 1 && s[i] == '.' {
        assert(s@.subrange(i as int, j as int) =~= seq!['.']);
        true
    } else {
        proof {
            let piece = s@.subrange(i as int, j as int);
            assert(seq!['.'].len() == 1 && seq!['.'][0] == '.');
            if j - i == 1 {
                assert(piece[0] == s@[i as int]);
            }
            assert(piece != seq!['.']);
        }
        false
    }
}

/// The last piece of `s[lb..end)` that is not skipped.
fn last_piece_of(s: &Vec<char>, lb: usize, end: usize) -> (r: Option<(usize, usize)>)
    requires
        lb <= end <= s.len(),
    ensures
        r matches Some((i, j)) ==> last_piece(s@, lb as int, end as int) == Some((i as int, j as int)),
        r is None ==> last_piece(s@, lb as int, end as int) is None,
{
    reveal_with_fuel(last_piece, 2);
    let mut e = end;
    while e > lb
        invariant
            lb <= e <= end <= s.len(),
            last_piece(s@, lb as int, end as int) == last_piece(s@, lb as int, e as int),
        decreases e,
    {
        let start = after_last_sep(s, lb, e);
        proof {
            lemma_last_sep(s@, lb as int, e as int);
        }
        if !piece_is_skipped(s, start, e) {
            return Some((start, e));
        }
        if start == lb {
            assert(last_piece(s@, lb as int, lb - 1) is None);
            assert(last_piece(s@, lb as int, e as int) is None);
            return None;
        }
        e = start - 1;
    }
    None
}

/// The file name of the prefix of length `n` of `s`, as the range it takes.
pub(crate) fn file_name_range(s: &Vec<char>, n: usize) -> (r: Option<(usize, usize)>)
    requires
        n <= s.len(),
    ensures
        r matches Some((i, j)) ==> i <= j <= n && file_name(s@.take(n as int)) == Some(
            s@.subrange(i as int, j as int),
        ),
        r is None ==> file_name(s@.take(n as int)) is None,
{
    let lb = body_start_of(s, n);
    let t = Ghost(s@.take(n as int));
    proof {
        lemma_last_piece_prefix(s@, n as int, lb as int, n as int);
        lemma_last_piece(s@, lb as int, n as int);
    }
    match last_piece_of(s, lb, n) {
        Some((i, j)) => {
            assert(t@.subrange(i as int, j as int) =~= s@.subrange(i as int, j as int));
            if j - i == 2 && s[i] == '.' && s[i + 1] == '.' {
                assert(s@.subrange(i as int, j as int) =~= seq!['.', '.']);
                None
            } else {
                proof {
                    if j - i == 2 {
                        assert(s@.subrange(i as int, j as int)[0] == s@[i as int]);
                        assert(s@.subrange(i as int, j as int)[1] == s@[i + 1]);
                    }
                }
                Some((i, j))
            }
        },
        None => None,
    }
}

/// The length of the parent of the prefix of length `n` of `s`.
fn parent_len_of(s: &Vec<char>, n: usize) -> (r: Option<usize>)
    requires
        n <= s.len(),
    ensures
        r matches Some(p) ==> parent_len(s@.take(n as int)) == Some(p as int),
        r is None ==> parent_len(s@.take(n as int)) is None,
{
    let lb = body_start_of(s, n);
    proof {
        lemma_last_piece_prefix(s@, n as int, lb as int, n as int);
        lemma_last_piece(s@, lb as int, n as int);
    }
    match last_piece_of(s, lb, n) {
        Some((i, _)) => {
            let k = if i > lb {
                i - 1
            } else {
                lb
            };
            proof {
                lemma_last_piece_prefix(s@, n as int, lb as int, k as int);
                lemma_last_piece(s@, lb as int, k as int);
            }
            match last_piece_of(s, lb, k) {
                Some((_, j)) => Some(j),
                None => Some(lb),
            }
        },
        None => {
            if n > 0 && s[0] == '.' && (n == 1 || s[1] == '/') {
                Some(0)
            } else {
                None
            }
        },
    }
}

/// The extension of the path `s`, as the range it takes.
pub(crate) fn extension_range(s: &Vec<char>) -> (r: Option<(usize, usize)>)
    ensures
        r matches Some((i, j)) ==> i <= j <= s.len() && extension(s@) == Some(
            s@.subrange(i as int, j as int),
        ),
        r is None ==> extension(s@) is None,
{
    assert(s@.take(s.len() as int) =~= s@);
    match file_name_range(s, s.len()) {
        Some((i, j)) => {
            let ghost name = s@.subrange(i as int, j as int);
            let mut d = j;
            while d > i && s[d - 1] != '.'
                invariant
                    i <= d <= j <= s.len(),
                    name == s@.subrange(i as int, j as int),
                    last_dot(name, name.len() as int) == last_dot(name, d - i),
                decreases d,
            {
                assert(name[d - i - 1] == s@[d - 1]);
                d = d - 1;
            }
            if d == i {
                assert(last_dot(name, 0) is None);
                None
            } else if d - 1 == i {
                assert(name[0] == s@[i as int]);
                None
            } else {
                assert(name[d - i - 1] == s@[d - 1]);
                assert(name.skip(d - i) =~= s@.subrange(d as int, j as int));
                Some((d, j))
            }
        },
        None => None,
    }
}

/// Whether the prefix of length `n` of `s` names an application bundle.
fn names_app_bundle(s: &Vec<char>, n: usize) -> (r: bool)
    requires
        n <= s.len(),
    ensures
        r == is_app_bundle(s@.take(n as int)),
{
    match file_name_range(s, n) {
        Some((i, j)) => {
            let name = sub_chars(s, i, j);
            let suffix = chars_of(".app");
            proof {
                reveal_strlit(".app");
                assert(suffix@ =~= bundle_suffix());
            }
            chars_end_with(&name, &suffix)
        },
        None => false,
    }
}

/// The outermost application bundle (a directory whose name ends with
/// `.app`) that holds the executable at `exe_path`, or is that path: of the
/// path and its ancestors, the one nearest the root whose file name ends
/// with `.app`.
pub fn find_app_bundle_path(exe_path: &str) -> (res: Option<String>)
    ensures
        res is None <==> outermost_bundle_from(exe_path@, exe_path@.len() as int) is None,
        res matches Some(r) ==> outermost_bundle_from(exe_path@, exe_path@.len() as int)
            == Some(r@.len() as int) && r@ == exe_path@.take(r@.len() as int),
        res is None <==> !exists|m: int|
            is_ancestor(exe_path@, exe_path@.len() as int, m) && is_app_bundle(
                exe_path@.take(m),
            ),
        res matches Some(r) ==> {
            &&& is_ancestor(exe_path@, exe_path@.len() as int, r@.len() as int)
            &&& is_app_bundle(r@)
            &&& forall|m: int|
                m < r@.len() && is_ancestor(exe_path@, exe_path@.len() as int, m)
                    ==> !is_app_bundle(exe_path@.take(m))
        },
{
    let s = chars_of(exe_path);
    let mut n = s.len();
    let mut last: Option<usize> = None;
    loop
        invariant
            n <= s.len(),
            last matches Some(m) ==> n < m <= s.len(),
            outermost_bundle_from(s@, s@.len() as int) == (
            if outermost_bundle_from(s@, n as int) is Some {
                outermost_bundle_from(s@, n as int)
            } else {
                match last {
                    Some(m) => Some(m as int),
                    None => None,
                }
            }),
        ensures
            last matches Some(m) ==> m <= s.len(),
            outermost_bundle_from(s@, s@.len() as int) == match last {
                Some(m) => Some(m as int),
                None => None,
            },
        decreases n,
    {
        if names_app_bundle(&s, n) {
            last = Some(n);
        }
        match parent_len_of(&s, n) {
            Some(p) => {
                proof {
                    lemma_parent_len(s@.take(n as int));
                }
                n = p;
            },
            None => {
                break ;
            },
        }
    }
    proof {
        lemma_outermost_bundle(s@, s@.len() as int);
    }
    match last {
        Some(m) => {
            let r = string_from_chars(sub_chars(&s, 0, m));
            proof {
                assert(r@ =~= s@.take(m as int));
            }
            Some(r)
        },
        None => None,
    }
}

/// The bundle found walking up from `n` is the ancestor of `n` nearest the
/// root that is a bundle.
pub proof fn lemma_outermost_bundle(s: Seq<char>, n: int)
    requires
        0 <= n <= s.len(),
    ensures
        outermost_bundle_from(s, n) is None <==> !exists|m: int|
            is_ancestor(s, n, m) && is_app_bundle(s.take(m)),
        outermost_bundle_from(s, n) matches Some(b) ==> {
            &&& is_ancestor(s, n, b)
            &&& is_app_bundle(s.take(b))
            &&& forall|m: int| m < b && is_ancestor(s, n, m) ==> !is_app_bundle(s.take(m))
        },
    decreases n,
{
    lemma_parent_len(s.take(n));
    lemma_ancestor_le(s, n);
    match parent_len(s.take(n)) {
        Some(p) => {
            lemma_outermost_bundle(s, p);
            lemma_ancestor_le(s, p);
            assert forall|m: int| is_ancestor(s, n, m) && m != n implies is_ancestor(s, p, m) by {
            }
            assert forall|m: int| is_ancestor(s, p, m) implies is_ancestor(s, n, m) by {
                assert(m <= p);
            }
            if outermost_bundle_from(s, p) is None && !is_app_bundle(s.take(n)) {
                assert forall|m: int| is_ancestor(s, n, m) implies !is_app_bundle(s.take(m)) by {
                    if m != n {
                        assert(is_ancestor(s, p, m));
                    }
                }
            }
            if is_app_bundle(s.take(n)) {
                assert(is_ancestor(s, n, n));
            }
        },
        None => {
            assert forall|m: int| is_ancestor(s, n, m) implies m == n by {
            }
            if is_app_bundle(s.take(n)) {
                assert(is_ancestor(s, n, n));
            }
        },
    }
}

/// Ancestors are no longer than the path they are taken from.
pub proof fn lemma_ancestor_le(s: Seq<char>, n: int)
    ensures
        forall|m: int| is_ancestor(s, n, m) ==> 0 <= m <= n,
    decreases n,
{
    if 0 <= n <= s.len() {
        lemma_parent_len(s.take(n));
        if let Some(p) = parent_len(s.take(n)) {
            lemma_ancestor_le(s, p);
            assert forall|m: int| is_ancestor(s, n, m) implies 0 <= m <= n by {
                if m != n {
                    assert(is_ancestor(s, p, m));
                }
            }
        } else {
            assert forall|m: int| is_ancestor(s, n, m) implies 0 <= m <= n by {
            }
        }
    }
}

/// Taking parents twice over is taking them once.
pub proof fn lemma_ancestor_trans(s: Seq<char>, n: int, k: int, m: int)
    requires
        is_ancestor(s, n, k),
        is_ancestor(s, k, m),
    ensures
        is_ancestor(s, n, m),
    decreases n,
{
    if k != n {
        lemma_parent_len(s.take(n));
        let p = parent_len(s.take(n)).unwrap();
        lemma_ancestor_trans(s, p, k, m);
    }
}

/// The ancestors of a prefix, and the bundle found from it, are the same
/// whether the prefix is taken of `s` or of a longer prefix `s.take(b)`.
proof fn lemma_prefix_walk(s: Seq<char>, b: int, k: int)
    requires
        0 <= k <= b <= s.len(),
    ensures
        forall|m: int| is_ancestor(s.take(b), k, m) == is_ancestor(s, k, m),
        outermost_bundle_from(s.take(b), k) == outermost_bundle_from(s, k),
    decreases k,
{
    let t = s.take(b);
    assert(t.take(k) =~= s.take(k));
    lemma_parent_len(s.take(k));
    if let Some(p) = parent_len(s.take(k)) {
        lemma_prefix_walk(s, b, p);
    }
    assert forall|m: int| is_ancestor(t, k, m) == is_ancestor(s, k, m) by {
        if let Some(p) = parent_len(s.take(k)) {
            assert(is_ancestor(t, p, m) == is_ancestor(s, p, m));
        }
    }
}

/// The bundle found for a path is its own bundle: looking up the bundle of
/// the path that [`find_app_bundle_path`] gives yields that path again.
pub proof fn law_bundle_of_bundle(exe: Seq<char>)
    requires
        outermost_bundle_from(exe, exe.len() as int) is Some,
    ensures
        ({
            let b = outermost_bundle_from(exe, exe.len() as int).unwrap();
            outermost_bundle_from(exe.take(b), b) == Some(b) && exe.take(b).len() == b
        }),
{
    let n = exe.len() as int;
    let b = outermost_bundle_from(exe, n).unwrap();
    lemma_outermost_bundle(exe, n);
    lemma_ancestor_le(exe, n);
    lemma_ancestor_le(exe, b);
    lemma_outermost_bundle(exe, b);
    assert(is_ancestor(exe, b, b));
    let c = outermost_bundle_from(exe, b).unwrap();
    lemma_ancestor_trans(exe, n, b, c);
    lemma_prefix_walk(exe, b, b);
}

} // verus!
