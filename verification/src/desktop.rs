//! Desktop entries (`.desktop` files): which icon an application declares,
//! and whether an entry launches the process that is looked up.
use crate::text::{
    chars_contain, chars_eq, chars_find_from, chars_of, chars_strip_prefix, contains,
    find_from, is_space, is_whitespace, lemma_find_from_some,
    string_from_chars, strip_prefix, sub_chars, trim, trim_chars, trim_end, trim_start,
};
use crate::unix_path::{extension, extension_range, file_name, file_name_range};
use vstd::prelude::*;
use vstd::utf8::encode_utf8;

verus! {

/// The lines of `s` from index `i` on: the pieces between newlines.
pub open spec fn lines_from(s: Seq<char>, i: int) -> Seq<Seq<char>>
    decreases s.len() - i,
{
    if i < 0 || i > s.len() {
        seq![]
    } else {
        match find_from(s, seq!['\n'], i) {
            Some(k) => {
                proof {
                    lemma_find_from_some(s, seq!['\n'], i);
                }
                seq![s.subrange(i, k)] + lines_from(s, k + 1)
            },
            None => seq![s.subrange(i, s.len() as int)],
        }
    }
}

/// The lines of a desktop entry: the pieces of text between newlines. (A
/// carriage return before a newline stays at the end of its line, where the
/// trimming of every value removes it.)
pub open spec fn lines(s: Seq<char>) -> Seq<Seq<char>> {
    lines_from(s, 0)
}

/// The key that declares the icon.
pub open spec fn icon_key() -> Seq<char> {
    seq!['I', 'c', 'o', 'n', '=']
}

/// The key that declares the command line.
pub open spec fn exec_key() -> Seq<char> {
    seq!['E', 'x', 'e', 'c', '=']
}

/// Whether `c` is kept in a value: quotes and backslashes are dropped.
pub open spec fn is_kept(c: char) -> bool {
    c != '"' && c != '\\'
}

/// A value without its quotes and backslashes.
pub open spec fn unquoted(v: Seq<char>) -> Seq<char> {
    v.filter(|c: char| is_kept(c))
}

/// The icon that a line declares: the trimmed, unquoted value of an `Icon=`
/// line, if it is not empty.
pub open spec fn line_icon(line: Seq<char>) -> Option<Seq<char>> {
    match strip_prefix(line, icon_key()) {
        Some(v) => {
            let icon = trim(unquoted(v));
            if icon.len() > 0 {
                Some(icon)
            } else {
                None
            }
        },
        None => None,
    }
}

/// The icon declared last in `lines`.
pub open spec fn last_icon(lines: Seq<Seq<char>>) -> Option<Seq<char>>
    decreases lines.len(),
{
    if lines.len() == 0 {
        None
    } else {
        match line_icon(lines.last()) {
            Some(icon) => Some(icon),
            None => last_icon(lines.drop_last()),
        }
    }
}

/// Whether `s[i..j)` is a word of `s`: a maximal run of non-whitespace
/// characters (one of the items of `str::split_whitespace`).
pub open spec fn is_word(s: Seq<char>, i: int, j: int) -> bool {
    &&& 0 <= i < j <= s.len()
    &&& i == 0 || is_space(s[i - 1])
    &&& j == s.len() || is_space(s[j])
    &&& forall|k: int| i <= k < j ==> !is_space(s[k])
}

/// Whether a word of a command line names the process `name`: the file
/// name of the word (empty if it has none) equals `name` when `name` is
/// shorter than 15 bytes in UTF-8, and contains it otherwise.
pub open spec fn part_names(part: Seq<char>, name: Seq<char>) -> bool {
    let part_name = match file_name(part) {
        Some(n) => n,
        None => seq![],
    };
    if encode_utf8(name).len() < 15 {
        part_name == name
    } else {
        contains(part_name, name)
    }
}

/// Whether a word of `command` names the process `name`.
pub open spec fn command_names(command: Seq<char>, name: Seq<char>) -> bool {
    exists|i: int, j: int| #[trigger] is_word(command, i, j) && part_names(command.subrange(i, j), name)
}

/// Whether a line is an `Exec=` line with a word that names `name`.
pub open spec fn line_runs(line: Seq<char>, name: Seq<char>) -> bool {
    match strip_prefix(line, exec_key()) {
        Some(v) => {
            let command = trim(unquoted(v));
            command_names(command, name)
        },
        None => false,
    }
}

/// Whether a desktop entry launches the process `name`.
pub open spec fn entry_runs(content: Seq<char>, name: Seq<char>) -> bool {
    exists|k: int| 0 <= k < lines(content).len() && line_runs(#[trigger] lines(content)[k], name)
}

/// The icon of a desktop entry for the process `name`: the icon the entry
/// declares last, if the entry launches `name`.
pub open spec fn entry_icon(content: Seq<char>, name: Seq<char>) -> Option<Seq<char>> {
    if entry_runs(content, name) {
        last_icon(lines(content))
    } else {
        None
    }
}

/// The icon that reading a desktop entry gives for the process `name`:
/// nothing if the entry could not be read, else the entry's icon.
pub open spec fn read_entry_icon(content: Option<String>, name: Seq<char>) -> Option<Seq<char>> {
    match content {
        Some(c) => entry_icon(c@, name),
        None => None,
    }
}

/// Whether reading entry `i` (with `read_entry`) can give the icon `icon`
/// for the process `name`.
pub open spec fn reads_icon<F: Fn(usize) -> Option<String>>(
    read_entry: F,
    i: usize,
    name: Seq<char>,
    icon: Option<Seq<char>>,
) -> bool {
    exists|content: Option<String>|
        read_entry.ensures((i,), content) && #[trigger] read_entry_icon(content, name) == icon
}

/// Whether the path of a file has the extension `desktop`.
pub open spec fn is_desktop_file(path: Seq<char>) -> bool {
    extension(path) == Some(seq!['d', 'e', 's', 'k', 't', 'o', 'p'])
}

/// `v` without its quotes and backslashes.
fn unquote(v: &Vec<char>) -> (r: Vec<char>)
    ensures
        r@ == unquoted(v@),
{
    let mut r: Vec<char> = Vec::new();
    let mut i: usize = 0;
    while i < v.len()
        invariant
            i <= v.len(),
            r@ == v@.take(i as int).filter(|c: char| is_kept(c)),
        decreases v.len() - i,
    {
        proof {
            reveal(Seq::filter);
            assert(v@.take(i + 1).drop_last() =~= v@.take(i as int));
        }
        if v[i] != '"' && v[i] != '\\' {
            r.push(v[i]);
        }
        i = i + 1;
    }
    assert(v@.take(v.len() as int) =~= v@);
    r
}

/// Whether a word names the process `name`.
fn part_names_exec(part: &Vec<char>, name: &Vec<char>, short_name: bool) -> (r: bool)
    requires
        short_name == (encode_utf8(name@).len() < 15),
    ensures
        r == part_names(part@, name@),
{
    assert(part@.take(part.len() as int) =~= part@);
    let part_name = match file_name_range(part, part.len()) {
        Some((i, j)) => sub_chars(part, i, j),
        None => Vec::new(),
    };
    assert(part_name@ == match file_name(part@) {
        Some(n) => n,
        None => seq![],
    });
    if short_name {
        chars_eq(&part_name, name)
    } else {
        chars_contain(&part_name, name)
    }
}

/// Whether a command line has a word that names the process `name`.
fn command_runs(command: &Vec<char>, name: &Vec<char>, short_name: bool) -> (r: bool)
    requires
        short_name == (encode_utf8(name@).len() < 15),
    ensures
        r == command_names(command@, name@),
{
    let s = command;
    let mut i: usize = 0;
    while i < s.len()
        invariant
            s@ == command@,
            short_name == (encode_utf8(name@).len() < 15),
            i <= s.len(),
            i == 0 || i == s.len() || is_space(s@[i - 1]) || is_space(s@[i as int]),
            forall|a: int, b: int|
                a < i && is_word(s@, a, b) ==> !part_names(s@.subrange(a, b), name@),
        decreases s.len() - i,
    {
        let mut a = i;
        while a < s.len() && is_whitespace(s[a])
            invariant
                i <= a <= s.len(),
                forall|k: int| i <= k < a ==> is_space(s@[k]),
            decreases s.len() - a,
        {
            a = a + 1;
        }
        if a == s.len() {
            assert forall|x: int, y: int| is_word(s@, x, y) implies !part_names(
                s@.subrange(x, y),
                name@,
            ) by {
                if x >= i {
                    assert(!is_space(s@[x]));
                } else if y > i {
                    assert(!is_space(s@[i - 1]) && !is_space(s@[i as int]));
                }
            }
            return false;
        }
        let mut b = a;
        while b < s.len() && !is_whitespace(s[b])
            invariant
                a <= b <= s.len(),
                forall|k: int| a <= k < b ==> !is_space(s@[k]),
            decreases s.len() - b,
        {
            b = b + 1;
        }
        proof {
            if a == i && i > 0 {
                assert(!is_space(s@[i as int]));
            }
            assert(is_word(s@, a as int, b as int));
        }
        let part = sub_chars(s, a, b);
        if part_names_exec(&part, name, short_name) {
            assert(is_word(s@, a as int, b as int) && part_names(
                s@.subrange(a as int, b as int),
                name@,
            ));
            return true;
        }
        assert forall|x: int, y: int| x < b && is_word(s@, x, y) implies !part_names(
            s@.subrange(x, y),
            name@,
        ) by {
            if x < i {
                if y > i {
                    assert(!is_space(s@[i - 1]) && !is_space(s@[i as int]));
                }
            } else if x < a {
                assert(!is_space(s@[x]));
            } else if x > a {
                assert(!is_space(s@[x - 1]));
            } else {
                if y < b {
                    assert(!is_space(s@[y]));
                } else if y > b {
                    assert(!is_space(s@[b as int]));
                }
            }
        }
        i = b;
    }
    assert forall|x: int, y: int| is_word(s@, x, y) implies !part_names(
        s@.subrange(x, y),
        name@,
    ) by {
        assert(x < i);
    }
    false
}

/// The icon that a line declares.
fn line_icon_exec(line: &Vec<char>, key: &Vec<char>) -> (r: Option<Vec<char>>)
    requires
        key@ == icon_key(),
    ensures
        r matches Some(v) ==> line_icon(line@) == Some(v@),
        r is None ==> line_icon(line@) is None,
{
    match chars_strip_prefix(line, key) {
        Some(v) => {
            let icon = trim_chars(&unquote(&v));
            if icon.len() > 0 {
                Some(icon)
            } else {
                None
            }
        },
        None => None,
    }
}

/// Whether a line is an `Exec=` line that names the process.
fn line_runs_exec(line: &Vec<char>, key: &Vec<char>, name: &Vec<char>, short_name: bool) -> (r:
    bool)
    requires
        key@ == exec_key(),
        short_name == (encode_utf8(name@).len() < 15),
    ensures
        r == line_runs(line@, name@),
{
    match chars_strip_prefix(line, key) {
        Some(v) => {
            let command = trim_chars(&unquote(&v));
            command_runs(&command, name, short_name)
        },
        None => false,
    }
}

/// The lines from `i` on are the line at `i` and the lines after it.
proof fn lemma_lines_step(s: Seq<char>, i: int)
    requires
        0 <= i <= s.len(),
    ensures
        find_from(s, seq!['\n'], i) matches Some(k) ==> lines_from(s, i) == seq![s.subrange(i, k)]
            + lines_from(s, k + 1),
        find_from(s, seq!['\n'], i) is None ==> lines_from(s, i) == seq![
            s.subrange(i, s.len() as int),
        ],
{
}

/// The icon of a desktop entry for the process `name`: if a word of an
/// `Exec=` line names `name`, the last non-empty `Icon=` value.
pub fn desktop_entry_icon(content: &str, name: &str) -> (r: Option<String>)
    ensures
        r matches Some(v) ==> entry_icon(content@, name@) == Some(v@),
        r is None ==> entry_icon(content@, name@) is None,
{
    let s = chars_of(content);
    let name_chars = chars_of(name);
    let short_name = name.as_bytes().len() < 15;
    let icon_key_chars = chars_of("Icon=");
    let exec_key_chars = chars_of("Exec=");
    let newline = chars_of("\n");
    proof {
        reveal_strlit("Icon=");
        reveal_strlit("Exec=");
        reveal_strlit("\n");
        assert(icon_key_chars@ =~= icon_key());
        assert(exec_key_chars@ =~= exec_key());
        assert(newline@ =~= seq!['\n']);
    }
    let mut icon: Option<Vec<char>> = None;
    let mut runs = false;
    let ghost mut done: Seq<Seq<char>> = seq![];
    let mut i: usize = 0;
    let mut finished = false;
    while !finished
        invariant
            s@ == content@,
            name_chars@ == name@,
            short_name == (encode_utf8(name@).len() < 15),
            icon_key_chars@ == icon_key(),
            exec_key_chars@ == exec_key(),
            newline@ == seq!['\n'],
            i <= s.len(),
            !finished ==> lines(s@) == done + lines_from(s@, i as int),
            finished ==> lines(s@) == done,
            icon is None ==> last_icon(done) is None,
            icon matches Some(v) ==> last_icon(done) == Some(v@),
            runs == exists|k: int| 0 <= k < done.len() && line_runs(#[trigger] done[k], name@),
        decreases (s.len() - i) * 2 + if finished { 0int } else { 1int },
    {
        proof {
            lemma_lines_step(s@, i as int);
            lemma_find_from_some(s@, seq!['\n'], i as int);
        }
        let (end, next) = match chars_find_from(&s, &newline, i) {
            Some(k) => (k, Some(k + 1)),
            None => (s.len(), None),
        };
        let line = sub_chars(&s, i, end);
        let ghost before = done;
        proof {
            done = done.push(line@);
            assert(done.drop_last() =~= before);
        }
        match line_icon_exec(&line, &icon_key_chars) {
            Some(v) => {
                icon = Some(v);
            },
            None => {},
        }
        if line_runs_exec(&line, &exec_key_chars, &name_chars, short_name) {
            runs = true;
        }
        proof {
            if runs {
                if line_runs(line@, name@) {
                    assert(done[done.len() - 1] == line@);
                } else {
                    let k = choose|k: int| 0 <= k < before.len() && line_runs(#[trigger] before[k], name@);
                    assert(done[k] == before[k]);
                }
            } else {
                assert forall|k: int| 0 <= k < done.len() implies !line_runs(#[trigger] done[k], name@) by {
                    if k < before.len() {
                        assert(done[k] == before[k]);
                    }
                }
            }
        }
        match next {
            Some(n) => {
                proof {
                    assert(lines_from(s@, i as int) == seq![line@] + lines_from(s@, n as int));
                    assert(before + lines_from(s@, i as int) =~= done + lines_from(s@, n as int));
                }
                i = n;
            },
            None => {
                proof {
                    assert(before + lines_from(s@, i as int) =~= done);
                }
                finished = true;
            },
        }
    }
    if runs {
        match icon {
            Some(v) => Some(string_from_chars(v)),
            None => None,
        }
    } else {
        None
    }
}

/// The name of the icon that the desktop entries give for the process
/// `name`. The entries are the files at `entry_paths`, in order; of those
/// whose extension is `desktop`, each is read with `read_entry` (which
/// gives its content, or `None` if it cannot be read) until one launches
/// `name` and declares an icon: that icon is the answer.
pub fn find_icon_name<F: Fn(usize) -> Option<String>>(
    name: &str,
    entry_paths: &Vec<String>,
    read_entry: F,
) -> (r: Option<String>)
    requires
        forall|i: usize| i < entry_paths.len() ==> read_entry.requires((i,)),
    ensures
        r matches Some(icon) ==> exists|i: usize|
            {
                &&& i < entry_paths.len()
                &&& is_desktop_file(entry_paths@[i as int]@)
                &&& #[trigger] reads_icon(read_entry, i, name@, Some(icon@))
                &&& forall|j: usize|
                    j < i && is_desktop_file(entry_paths@[j as int]@) ==> reads_icon(
                        read_entry,
                        j,
                        name@,
                        None,
                    )
            },
        r is None ==> forall|j: usize|
            j < entry_paths.len() && is_desktop_file(entry_paths@[j as int]@) ==> reads_icon(
                read_entry,
                j,
                name@,
                None,
            ),
{
    let mut k: usize = 0;
    while k < entry_paths.len()
        invariant
            k <= entry_paths.len(),
            forall|i: usize| i < entry_paths.len() ==> read_entry.requires((i,)),
            forall|j: usize|
                j < k && is_desktop_file(entry_paths@[j as int]@) ==> reads_icon(
                    read_entry,
                    j,
                    name@,
                    None,
                ),
        decreases entry_paths.len() - k,
    {
        if has_desktop_extension(entry_paths[k].as_str()) {
            let content = read_entry(k);
            let icon = match &content {
                Some(c) => desktop_entry_icon(c.as_str(), name),
                None => None,
            };
            match icon {
                Some(v) => {
                    assert(read_entry_icon(content, name@) == Some(v@));
                    assert(reads_icon(read_entry, k, name@, Some(v@)));
                    return Some(v);
                },
                None => {
                    assert(read_entry_icon(content, name@) is None);
                    assert(reads_icon(read_entry, k, name@, None));
                },
            }
        }
        k = k + 1;
    }
    None
}

/// Whether the file at `path` is a desktop entry: its extension is
/// `desktop`.
pub fn has_desktop_extension(path: &str) -> (r: bool)
    ensures
        r == is_desktop_file(path@),
{
    let s = chars_of(path);
    let wanted = chars_of("desktop");
    proof {
        reveal_strlit("desktop");
        assert(wanted@ =~= seq!['d', 'e', 's', 'k', 't', 'o', 'p']);
    }
    match extension_range(&s) {
        Some((i, j)) => {
            let ext = sub_chars(&s, i, j);
            chars_eq(&ext, &wanted)
        },
        None => false,
    }
}

/// A word of a command line names a process by the word's file name alone:
/// for a word made of a directory, a `/` and a file name, a process name of
/// 15 bytes or more in UTF-8 is named exactly when the file name contains
/// it, and a shorter one exactly when the file name equals it. What the
/// directory holds never matters.
pub proof fn law_words_name_by_file_name(dir: Seq<char>, base: Seq<char>, name: Seq<char>)
    requires
        base.len() > 0,
        forall|k: int| 0 <= k < base.len() ==> base[k] != '/',
        base != seq!['.'],
        base != seq!['.', '.'],
    ensures
        encode_utf8(name).len() >= 15 ==> (part_names(dir + seq!['/'] + base, name) <==> contains(
            base,
            name,
        )),
        encode_utf8(name).len() < 15 ==> (part_names(dir + seq!['/'] + base, name) <==> base
            == name),
{
    crate::unix_path::law_file_name_after_separator(dir, base);
}

/// The first newline at or after `i` in `a + "\n" + b` is the first one in
/// `a`, or the one that joins `a` and `b`.
proof fn lemma_newline_in_join(a: Seq<char>, b: Seq<char>, i: int)
    requires
        0 <= i <= a.len(),
    ensures
        ({
            let s = a + seq!['\n'] + b;
            find_from(s, seq!['\n'], i) == match find_from(a, seq!['\n'], i) {
                Some(k) => Some(k),
                None => Some(a.len() as int),
            }
        }),
{
    let s = a + seq!['\n'] + b;
    let nl = seq!['\n'];
    lemma_find_from_some(a, nl, i);
    lemma_find_from_some(s, nl, i);
    crate::text::lemma_find_from_none(s, nl, i);
    crate::text::lemma_find_from_none(a, nl, i);
    let want = match find_from(a, nl, i) {
        Some(k) => k,
        None => a.len() as int,
    };
    assert(s.subrange(want, want + 1) =~= nl) by {
        if want < a.len() {
            assert(crate::text::occurs_at(a, nl, want));
            assert(a.subrange(want, want + 1)[0] == a[want]);
            assert(a[want] == '\n');
        }
    }
    assert(crate::text::occurs_at(s, nl, want));
    let k = find_from(s, nl, i).unwrap();
    if k < want {
        assert(s.subrange(k, k + 1)[0] == '\n');
        assert(a[k] == s[k]);
        assert(a.subrange(k, k + 1) =~= nl);
        assert(crate::text::occurs_at(a, nl, k));
    }
}

/// The lines of `a + "\n" + b`, from a place in `a` on, are those of `a`
/// followed by `b`, when `b` holds no newline.
proof fn lemma_lines_of_join(a: Seq<char>, b: Seq<char>, i: int)
    requires
        0 <= i <= a.len(),
        forall|k: int| 0 <= k < b.len() ==> b[k] != '\n',
    ensures
        lines_from(a + seq!['\n'] + b, i) == lines_from(a, i).push(b),
    decreases a.len() - i,
{
    let s = a + seq!['\n'] + b;
    let nl = seq!['\n'];
    lemma_newline_in_join(a, b, i);
    lemma_lines_step(s, i);
    lemma_lines_step(a, i);
    lemma_find_from_some(a, nl, i);
    match find_from(a, nl, i) {
        Some(k) => {
            lemma_lines_of_join(a, b, k + 1);
            assert(s.subrange(i, k) =~= a.subrange(i, k));
            assert(seq![a.subrange(i, k)] + lines_from(a, k + 1).push(b) =~= (seq![a.subrange(i, k)]
                + lines_from(a, k + 1)).push(b));
        },
        None => {
            let n = a.len() as int;
            lemma_lines_step(s, n + 1);
            crate::text::lemma_find_from_none(s, nl, n + 1);
            assert forall|k: int| n + 1 <= k implies !crate::text::occurs_at(s, nl, k) by {
                if crate::text::occurs_at(s, nl, k) {
                    assert(s.subrange(k, k + 1)[0] == '\n');
                    assert(s[k] == b[k - n - 1]);
                }
            }
            assert(s.subrange(i, n) =~= a.subrange(i, n));
            assert(s.subrange(n + 1, s.len() as int) =~= b);
        },
    }
}

/// A value made only of kept characters loses none of them.
proof fn lemma_unquoted_kept(v: Seq<char>)
    requires
        forall|k: int| 0 <= k < v.len() ==> is_kept(#[trigger] v[k]),
    ensures
        unquoted(v) == v,
    decreases v.len(),
{
    reveal(Seq::filter);
    if v.len() > 0 {
        lemma_unquoted_kept(v.drop_last());
        assert(v.drop_last().push(v.last()) =~= v);
    }
}

/// The last icon declared wins: an entry that launches the process `name`
/// and ends with an `Icon=` line gives the icon of that line, whatever
/// icons the lines before it declare.
pub proof fn law_last_icon_wins(before: Seq<char>, icon: Seq<char>, name: Seq<char>)
    requires
        entry_runs(before, name),
        is_clean_icon_name(icon),
        forall|k: int| 0 <= k < icon.len() ==> icon[k] != '\n',
    ensures
        entry_icon(before + seq!['\n'] + icon_key() + icon, name) == Some(icon),
{
    let line = icon_key() + icon;
    let content = before + seq!['\n'] + line;
    assert forall|k: int| 0 <= k < line.len() implies line[k] != '\n' by {
        if k >= 5 {
            assert(line[k] == icon[k - 5]);
        }
    }
    lemma_lines_of_join(before, line, 0);
    assert(content =~= before + seq!['\n'] + icon_key() + icon);
    let ls = lines(content);
    assert(ls == lines(before).push(line));
    let k = choose|k: int| 0 <= k < lines(before).len() && line_runs(#[trigger] lines(before)[k], name);
    assert(ls[k] == lines(before)[k]);
    assert(entry_runs(content, name));
    assert(line.take(5) =~= icon_key());
    assert(line.skip(5) =~= icon);
    lemma_unquoted_kept(icon);
    assert(trim_start(icon) == icon);
    assert(trim_end(icon) == icon);
    assert(ls.last() == line);
}

/// A file is taken as a desktop entry by the extension of its file name,
/// the text after its last `.`: `a.b.desktop` is one, `a.desktop.bak` and
/// `.desktop` are not. (`stem` is not empty and holds no `/`; `ext` is not
/// empty and holds neither `/` nor `.`.)
pub proof fn law_desktop_files_by_extension(dir: Seq<char>, stem: Seq<char>, ext: Seq<char>)
    requires
        stem.len() > 0,
        forall|k: int| 0 <= k < stem.len() ==> stem[k] != '/',
        ext.len() > 0,
        forall|k: int| 0 <= k < ext.len() ==> ext[k] != '/' && ext[k] != '.',
    ensures
        is_desktop_file(dir + seq!['/'] + stem + seq!['.'] + ext) <==> ext == seq![
            'd',
            'e',
            's',
            'k',
            't',
            'o',
            'p',
        ],
        !is_desktop_file(dir + seq!['/'] + seq!['.'] + ext),
{
    crate::unix_path::law_extension_after_last_dot(dir, stem, ext);
}

/// Whether `v` is a clean icon name: not empty, without whitespace at
/// either end, and without quotes or backslashes.
pub open spec fn is_clean_icon_name(v: Seq<char>) -> bool {
    &&& v.len() > 0
    &&& !is_space(v[0])
    &&& !is_space(v.last())
    &&& forall|k: int| 0 <= k < v.len() ==> is_kept(#[trigger] v[k])
}

/// The icon a line declares is clean.
proof fn lemma_line_icon_clean(line: Seq<char>)
    ensures
        line_icon(line) matches Some(icon) ==> is_clean_icon_name(icon),
{
    if let Some(v) = strip_prefix(line, icon_key()) {
        let u = unquoted(v);
        let (i, j) = crate::text::lemma_trim_shape(u);
        assert forall|k: int| 0 <= k < trim(u).len() implies is_kept(#[trigger] trim(u)[k]) by {
            assert(trim(u)[k] == u[i + k]);
            v.lemma_filter_pred(|c: char| is_kept(c), i + k);
        }
    }
}

/// The last icon declared in some lines is clean.
proof fn lemma_last_icon_clean(lines: Seq<Seq<char>>)
    ensures
        last_icon(lines) matches Some(icon) ==> is_clean_icon_name(icon),
    decreases lines.len(),
{
    if lines.len() > 0 {
        lemma_line_icon_clean(lines.last());
        lemma_last_icon_clean(lines.drop_last());
    }
}

/// The icon names that desktop entries give are clean: not empty, without
/// whitespace at either end, and without quotes or backslashes.
pub proof fn law_entry_icons_are_clean(content: Seq<char>, name: Seq<char>)
    ensures
        entry_icon(content, name) matches Some(icon) ==> is_clean_icon_name(icon),
{
    lemma_last_icon_clean(lines(content));
}

} // verus!
