//! Package manifests (`AppxManifest.xml`) of packaged Windows applications:
//! which logo files they declare, and which size variant of a logo comes
//! closest to the wanted icon size.
use crate::text::{
    chars_contain, chars_find_from, chars_of, chars_occur_at, contains, find, find_from,
    is_digit, lemma_find_from_some, occurs_at, string_from_chars, trim, trim_chars,
};
use crate::xml::{read_xml_events, xml_events, EventView, TagView, XmlEvent, XmlTag};
use vstd::prelude::*;
use vstd::utf8::{decode_utf8, encode_utf8, valid_utf8};

verus! {

/// The icon size, in pixels, that the variants are chosen for.
pub const TARGET_PX: u32 = 64;

// ---------------------------------------------------------------------------
// Numbers in file names
// ---------------------------------------------------------------------------
/// The ASCII digits at the start of `s`.
pub open spec fn leading_digits(s: Seq<char>) -> Seq<char>
    decreases s.len(),
{
    if s.len() > 0 && is_digit(s[0]) {
        seq![s[0]] + leading_digits(s.drop_first())
    } else {
        seq![]
    }
}

/// The number that the decimal digits `ds` write.
pub open spec fn decimal_value(ds: Seq<char>) -> nat
    decreases ds.len(),
{
    if ds.len() == 0 {
        0
    } else {
        decimal_value(ds.drop_last()) * 10 + (ds.last() as nat - '0' as nat) as nat
    }
}

/// The number written right after the first occurrence of `marker` in
/// `name`, if digits follow it and their value fits in a `u32` (what
/// `name.split(marker).nth(1)`, the digits at its start, and
/// `str::parse::<u32>` give).
pub open spec fn number_after(name: Seq<char>, marker: Seq<char>) -> Option<u32> {
    match find(name, marker) {
        Some(i) => {
            let ds = leading_digits(name.skip(i + marker.len()));
            if ds.len() > 0 && decimal_value(ds) <= u32::MAX {
                Some(decimal_value(ds) as u32)
            } else {
                None
            }
        },
        None => None,
    }
}

/// The marker of a size given in pixels.
pub open spec fn targetsize_marker() -> Seq<char> {
    seq!['t', 'a', 'r', 'g', 'e', 't', 's', 'i', 'z', 'e', '-']
}

/// The marker of a size given as a scale in percent.
pub open spec fn scale_marker() -> Seq<char> {
    seq!['s', 'c', 'a', 'l', 'e', '-']
}

/// The leading digits of `s` from `start` end where the first non-digit is.
proof fn lemma_leading_digits(s: Seq<char>, start: int, end: int)
    requires
        0 <= start <= end <= s.len(),
        forall|k: int| start <= k < end ==> is_digit(s[k]),
        end == s.len() || !is_digit(s[end]),
    ensures
        leading_digits(s.skip(start)) == s.subrange(start, end),
    decreases end - start,
{
    if start == end {
        assert(s.subrange(start, end) =~= seq![]);
    } else {
        lemma_leading_digits(s, start + 1, end);
        assert(s.skip(start).drop_first() =~= s.skip(start + 1));
        assert(s.subrange(start, end) =~= seq![s[start]] + s.subrange(start + 1, end));
    }
}

/// The value of the digits at `s[start..)`, if there are any and the value
/// fits in a `u32`.
fn leading_number(s: &Vec<char>, start: usize) -> (r: Option<u32>)
    requires
        start <= s.len(),
    ensures
        ({
            let ds = leading_digits(s@.skip(start as int));
            r == if ds.len() > 0 && decimal_value(ds) <= u32::MAX {
                Some(decimal_value(ds) as u32)
            } else {
                None
            }
        }),
{
    let mut i = start;
    let mut value: u64 = 0;
    let mut too_large = false;
    while i < s.len() && '0' <= s[i] && s[i] <= '9'
        invariant
            start <= i <= s.len(),
            forall|k: int| start <= k < i ==> is_digit(s@[k]),
            too_large ==> decimal_value(s@.subrange(start as int, i as int)) > u32::MAX,
            !too_large ==> value == decimal_value(s@.subrange(start as int, i as int)) && value
                <= u32::MAX,
        decreases s.len() - i,
    {
        let ghost before = s@.subrange(start as int, i as int);
        let digit = (s[i] as u32 - '0' as u32) as u64;
        proof {
            assert(s@.subrange(start as int, i + 1).drop_last() =~= before);
            assert(decimal_value(s@.subrange(start as int, i + 1)) == decimal_value(before) * 10
                + digit);
        }
        if !too_large {
            value = value * 10 + digit;
            if value > 0xffff_ffffu64 {
                too_large = true;
            }
        }
        i = i + 1;
    }
    proof {
        lemma_leading_digits(s@, start as int, i as int);
    }
    if i == start || too_large {
        None
    } else {
        Some(value as u32)
    }
}

/// The number written right after the first occurrence of `marker` in
/// `name`.
fn number_after_marker(name: &Vec<char>, marker: &Vec<char>) -> (r: Option<u32>)
    ensures
        r == number_after(name@, marker@),
{
    proof {
        lemma_find_from_some(name@, marker@, 0);
    }
    match chars_find_from(name, marker, 0) {
        Some(i) => {
            assert(occurs_at(name@, marker@, i as int));
            let name_len = name.len();
            assert(i + marker.len() <= name_len);
            leading_number(name, i + marker.len())
        },
        None => None,
    }
}

/// The pixel size written in a `targetsize-NNN` segment of a file name.
pub fn extract_targetsize(name: &str) -> (r: Option<u32>)
    ensures
        r == number_after(name@, targetsize_marker()),
{
    let marker = chars_of("targetsize-");
    proof {
        reveal_strlit("targetsize-");
        assert(marker@ =~= targetsize_marker());
    }
    number_after_marker(&chars_of(name), &marker)
}

/// The scale factor, in percent, written in a `scale-NNN` segment of a file
/// name.
pub fn extract_scale(name: &str) -> (r: Option<u32>)
    ensures
        r == number_after(name@, scale_marker()),
{
    let marker = chars_of("scale-");
    proof {
        reveal_strlit("scale-");
        assert(marker@ =~= scale_marker());
    }
    number_after_marker(&chars_of(name), &marker)
}

/// The decimal digits.
pub open spec fn digit_chars() -> Seq<char> {
    seq!['0', '1', '2', '3', '4', '5', '6', '7', '8', '9']
}

/// The decimal digits that write `n`, without leading zeros.
pub open spec fn decimal_digits(n: nat) -> Seq<char>
    decreases n,
{
    if n < 10 {
        seq![digit_chars()[n as int]]
    } else {
        decimal_digits(n / 10).push(digit_chars()[(n % 10) as int])
    }
}

proof fn lemma_decimal_digits(n: nat)
    ensures
        decimal_digits(n).len() > 0,
        forall|k: int| 0 <= k < decimal_digits(n).len() ==> is_digit(#[trigger] decimal_digits(n)[k]),
        decimal_value(decimal_digits(n)) == n,
    decreases n,
{
    let ds = digit_chars();
    assert(ds[0] == '0' && ds[1] == '1' && ds[2] == '2' && ds[3] == '3' && ds[4] == '4' && ds[5]
        == '5' && ds[6] == '6' && ds[7] == '7' && ds[8] == '8' && ds[9] == '9');
    assert forall|k: int| 0 <= k < 10 implies (ds[k] as nat - '0' as nat) as nat == k && is_digit(
        #[trigger] ds[k],
    ) by {
        assert('0' as nat == 48);
        if k == 0 {
        } else if k == 1 {
            assert('1' as nat == 49);
        } else if k == 2 {
            assert('2' as nat == 50);
        } else if k == 3 {
            assert('3' as nat == 51);
        } else if k == 4 {
            assert('4' as nat == 52);
        } else if k == 5 {
            assert('5' as nat == 53);
        } else if k == 6 {
            assert('6' as nat == 54);
        } else if k == 7 {
            assert('7' as nat == 55);
        } else if k == 8 {
            assert('8' as nat == 56);
        } else {
            assert('9' as nat == 57);
        }
    }
    if n < 10 {
        let d = decimal_digits(n);
        assert(d.drop_last() =~= seq![]);
        assert(d.last() == ds[n as int]);
        assert((ds[n as int] as nat - '0' as nat) as nat == n);
        assert(decimal_value(d) == decimal_value(d.drop_last()) * 10 + (d.last() as nat - '0' as nat) as nat);
    } else {
        lemma_decimal_digits(n / 10);
        let d = decimal_digits(n);
        let r = (n % 10) as int;
        assert(d.drop_last() =~= decimal_digits(n / 10));
        assert(d.last() == ds[r]);
        assert((ds[r] as nat - '0' as nat) as nat == r);
        assert(decimal_value(d) == decimal_value(d.drop_last()) * 10 + (d.last() as nat - '0' as nat) as nat);
        assert(n == (n / 10) * 10 + n % 10);
    }
}

/// The first occurrence found from `from` is at `i` when `w` occurs there
/// and nowhere between.
proof fn lemma_find_first<A>(s: Seq<A>, w: Seq<A>, from: int, i: int)
    requires
        0 <= from <= i,
        occurs_at(s, w, i),
        forall|k: int| from <= k < i ==> !occurs_at(s, w, k),
    ensures
        find_from(s, w, from) == Some(i),
    decreases i - from,
{
    if from < i {
        lemma_find_first(s, w, from + 1, i);
    }
}

/// A number written after its marker is read back: in a name made of a
/// prefix without the marker, the marker (`targetsize-` or `scale-`), the
/// decimal digits of `n`, and a rest that does not start with a digit, the
/// number after the marker is `n`.
pub proof fn law_number_read_back(prefix: Seq<char>, marker: Seq<char>, n: u32, rest: Seq<char>)
    requires
        marker == targetsize_marker() || marker == scale_marker(),
        !contains(prefix, marker),
        rest.len() == 0 || !is_digit(rest[0]),
    ensures
        number_after(prefix + marker + decimal_digits(n as nat) + rest, marker) == Some(n),
{
    let d = decimal_digits(n as nat);
    let s = prefix + marker + d + rest;
    let l = prefix.len() as int;
    let m = marker.len() as int;
    lemma_decimal_digits(n as nat);
    assert(marker.last() == '-');
    assert forall|k: int| 0 <= k < m - 1 implies marker[k] != '-' by {
    }
    assert(s.subrange(l, l + m) =~= marker);
    assert forall|k: int| 0 <= k < l implies !occurs_at(s, marker, k) by {
        if occurs_at(s, marker, k) {
            if k + m <= l {
                assert(prefix.subrange(k, k + m) =~= s.subrange(k, k + m));
                assert(occurs_at(prefix, marker, k));
            } else {
                assert(s.subrange(k, k + m)[m - 1] == s[k + m - 1]);
                assert(s[k + m - 1] == marker[k + m - 1 - l]);
            }
        }
    }
    lemma_find_first(s, marker, 0, l);
    let tail = s.skip(l + m);
    assert(tail =~= d + rest);
    lemma_leading_digits(tail, 0, d.len() as int);
    assert(tail.skip(0) =~= tail);
    assert(tail.subrange(0, d.len() as int) =~= d);
}

// ---------------------------------------------------------------------------
// Size variants of a logo
// ---------------------------------------------------------------------------
/// A file found beside a logo: its name (`None` if it is not valid
/// Unicode) and whether it is a regular file.
pub struct VariantFile {
    pub name: Option<String>,
    pub is_file: bool,
}

/// The name of a variant file, as characters.
pub open spec fn variant_name(f: VariantFile) -> Option<Seq<char>> {
    match f.name {
        Some(n) => Some(n@),
        None => None,
    }
}

/// `c` in ASCII lower case.
pub open spec fn ascii_lower(c: char) -> char {
    if 'A' <= c && c <= 'Z' {
        ((c as u32) + 32) as char
    } else {
        c
    }
}

/// `s` with its ASCII letters in lower case.
pub open spec fn lowered(s: Seq<char>) -> Seq<char> {
    s.map_values(|c: char| ascii_lower(c))
}

/// The qualifiers of theme and contrast variants (`contrast-standard`,
/// `contrast-high`, `contrast-black`, `contrast-white`, `theme-dark`,
/// `theme-light`).
pub open spec fn contrast_qualifier() -> Seq<char> {
    seq!['c', 'o', 'n', 't', 'r', 'a', 's', 't', '-']
}

pub open spec fn theme_qualifier() -> Seq<char> {
    seq!['t', 'h', 'e', 'm', 'e', '-']
}

/// Whether a file name carries a theme or contrast qualifier, in any case
/// (for these ASCII qualifiers this is what `to_lowercase` and `contains`
/// decide).
pub open spec fn is_themed(name: Seq<char>) -> bool {
    contains(lowered(name), contrast_qualifier()) || contains(lowered(name), theme_qualifier())
}

/// Whether `name` is a size variant of the logo with stem `stem` and
/// extension `ext`: it starts with the stem, ends with `.` and the
/// extension, and has no theme or contrast qualifier.
pub open spec fn is_variant_name(name: Seq<char>, stem: Seq<char>, ext: Seq<char>) -> bool {
    &&& stem.len() <= name.len() && name.take(stem.len() as int) == stem
    &&& crate::text::ends_with(name, seq!['.'] + ext)
    &&& !is_themed(name)
}

/// Whether a file is a size variant of the logo.
pub open spec fn is_variant(f: VariantFile, stem: Seq<char>, ext: Seq<char>) -> bool {
    &&& f.is_file
    &&& variant_name(f) matches Some(n) && is_variant_name(n, stem, ext)
}

/// The pixel size of a variant: given by its `targetsize-` segment, or else
/// computed from its `scale-` segment as `base_size × scale / 100`.
pub open spec fn pixel_size(name: Seq<char>, base_size: Option<u32>) -> Option<nat> {
    match number_after(name, targetsize_marker()) {
        Some(px) => Some(px as nat),
        None => match (base_size, number_after(name, scale_marker())) {
            (Some(base), Some(scale)) => Some((base * scale / 100) as nat),
            _ => None,
        },
    }
}

/// How far a pixel size is from [`TARGET_PX`]; `None` for an unknown size.
pub open spec fn distance(px: Option<nat>) -> Option<nat> {
    match px {
        Some(s) => Some(
            if s >= TARGET_PX {
                (s - TARGET_PX) as nat
            } else {
                (TARGET_PX - s) as nat
            },
        ),
        None => None,
    }
}

/// Whether distance `a` is no farther than distance `b`: known distances
/// compare as numbers, and an unknown distance is farther than any known
/// one.
pub open spec fn no_farther(a: Option<nat>, b: Option<nat>) -> bool {
    match (a, b) {
        (Some(x), Some(y)) => x <= y,
        (Some(_), None) => true,
        (None, Some(_)) => false,
        (None, None) => true,
    }
}

/// Whether distance `a` is strictly closer than distance `b`.
pub open spec fn closer(a: Option<nat>, b: Option<nat>) -> bool {
    !no_farther(b, a)
}

/// How far the size of a variant file is from [`TARGET_PX`].
pub open spec fn variant_distance(f: VariantFile, base_size: Option<u32>) -> Option<nat> {
    match variant_name(f) {
        Some(n) => distance(pixel_size(n, base_size)),
        None => None,
    }
}

/// Whether `files[k]` is the variant whose size is closest to
/// [`TARGET_PX`], the first such one where several are equally close.
pub open spec fn is_best_variant(
    files: Seq<VariantFile>,
    stem: Seq<char>,
    ext: Seq<char>,
    base_size: Option<u32>,
    k: int,
) -> bool {
    &&& 0 <= k < files.len()
    &&& is_variant(files[k], stem, ext)
    &&& forall|j: int|
        0 <= j < files.len() && is_variant(#[trigger] files[j], stem, ext) ==> {
            &&& no_farther(
                variant_distance(files[k], base_size),
                variant_distance(files[j], base_size),
            )
            &&& j < k ==> closer(
                variant_distance(files[k], base_size),
                variant_distance(files[j], base_size),
            )
        }
}

/// The mathematical value of an optional `u64`.
pub open spec fn wide_view(v: Option<u64>) -> Option<nat> {
    match v {
        Some(x) => Some(x as nat),
        None => None,
    }
}

/// Whether the qualifier `q` appears in `n` at `i`, in any case of its
/// ASCII letters.
pub open spec fn qualifier_at(n: Seq<char>, q: Seq<char>, i: int) -> bool {
    0 <= i && i + q.len() <= n.len() && forall|k: int| 0 <= k < q.len() ==> ascii_lower(n[i + k]) == q[k]
}

/// Which files are size variants of a logo with stem `stem` and extension
/// `ext`: exactly the regular files with a readable name that begins with
/// the stem, ends with a dot and the extension, and nowhere holds
/// `contrast-` or `theme-` in any letter case. Nothing else excludes a
/// file (an `altform-` qualifier, for one, does not), and a name that only
/// contains the stem later on is not a variant.
pub proof fn law_which_files_are_variants(f: VariantFile, stem: Seq<char>, ext: Seq<char>)
    ensures
        is_variant(f, stem, ext) <==> {
            &&& f.is_file
            &&& f.name is Some
            &&& stem.len() <= f.name.unwrap()@.len()
            &&& forall|k: int| 0 <= k < stem.len() ==> f.name.unwrap()@[k] == stem[k]
            &&& ext.len() + 1 <= f.name.unwrap()@.len()
            &&& f.name.unwrap()@[f.name.unwrap()@.len() - ext.len() - 1] == '.'
            &&& forall|k: int|
                0 <= k < ext.len() ==> f.name.unwrap()@[f.name.unwrap()@.len() - ext.len() + k]
                    == ext[k]
            &&& !exists|i: int| qualifier_at(f.name.unwrap()@, contrast_qualifier(), i)
            &&& !exists|i: int| qualifier_at(f.name.unwrap()@, theme_qualifier(), i)
        },
{
    if let Some(name) = f.name {
        let n = name@;
        if stem.len() <= n.len() {
            if forall|k: int| 0 <= k < stem.len() ==> n[k] == stem[k] {
                assert(n.take(stem.len() as int) =~= stem);
            }
        }
        let suffix = seq!['.'] + ext;
        if suffix.len() <= n.len() {
            let tail = n.skip(n.len() - suffix.len());
            if tail == suffix {
                assert(tail[0] == n[n.len() - ext.len() - 1]);
                assert forall|k: int| 0 <= k < ext.len() implies n[n.len() - ext.len() + k] == ext[k] by {
                    assert(tail[k + 1] == suffix[k + 1]);
                }
            }
            if n[n.len() - ext.len() - 1] == '.' && forall|k: int|
                0 <= k < ext.len() ==> n[n.len() - ext.len() + k] == ext[k] {
                assert(tail =~= suffix);
            }
        }
        lemma_qualifier(n, contrast_qualifier());
        lemma_qualifier(n, theme_qualifier());
    }
}

/// An occurrence in the lowered name is an occurrence in any case.
proof fn lemma_qualifier(n: Seq<char>, q: Seq<char>)
    ensures
        contains(lowered(n), q) <==> exists|i: int| qualifier_at(n, q, i),
{
    let l = lowered(n);
    if contains(l, q) {
        let i = choose|i: int| occurs_at(l, q, i);
        assert forall|k: int| 0 <= k < q.len() implies ascii_lower(n[i + k]) == q[k] by {
            assert(l.subrange(i, i + q.len())[k] == q[k]);
        }
        assert(qualifier_at(n, q, i));
    }
    if exists|i: int| qualifier_at(n, q, i) {
        let i = choose|i: int| qualifier_at(n, q, i);
        assert(l.subrange(i, i + q.len()) =~= q);
        assert(occurs_at(l, q, i));
    }
}

/// `s` with its ASCII letters in lower case.
fn lower_chars(s: &Vec<char>) -> (r: Vec<char>)
    ensures
        r@ == lowered(s@),
{
    let mut r: Vec<char> = Vec::new();
    let mut i: usize = 0;
    while i < s.len()
        invariant
            i <= s.len(),
            r@ == lowered(s@.take(i as int)),
        decreases s.len() - i,
    {
        let c = s[i];
        let l = if 'A' <= c && c <= 'Z' {
            ((c as u8) + 32) as char
        } else {
            c
        };
        r.push(l);
        assert(lowered(s@.take(i + 1)) =~= lowered(s@.take(i as int)).push(ascii_lower(c)));
        i = i + 1;
    }
    assert(s@.take(s.len() as int) =~= s@);
    r
}

/// Whether a variant file name has the stem, the extension, and no theme.
fn variant_name_matches(name: &Vec<char>, stem: &Vec<char>, suffix: &Vec<char>) -> (r: bool)
    ensures
        r == (stem@.len() <= name@.len() && name@.take(stem@.len() as int) == stem@
            && crate::text::ends_with(name@, suffix@) && !is_themed(name@)),
{
    let starts = chars_occur_at(name, stem, 0);
    proof {
        if stem@.len() <= name@.len() {
            assert(name@.subrange(0, stem@.len() as int) =~= name@.take(stem@.len() as int));
        }
    }
    if !starts {
        return false;
    }
    if !crate::text::chars_end_with(name, suffix) {
        return false;
    }
    let lower = lower_chars(name);
    let contrast = chars_of("contrast-");
    let theme = chars_of("theme-");
    proof {
        reveal_strlit("contrast-");
        reveal_strlit("theme-");
        assert(contrast@ =~= contrast_qualifier());
        assert(theme@ =~= theme_qualifier());
    }
    !chars_contain(&lower, &contrast) && !chars_contain(&lower, &theme)
}

/// The pixel size of a variant named `name`.
fn variant_pixel_size(name: &Vec<char>, base_size: Option<u32>) -> (r: Option<u64>)
    ensures
        wide_view(r) == pixel_size(name@, base_size),
{
    let targetsize = chars_of("targetsize-");
    let scale_m = chars_of("scale-");
    proof {
        reveal_strlit("targetsize-");
        reveal_strlit("scale-");
        assert(targetsize@ =~= targetsize_marker());
        assert(scale_m@ =~= scale_marker());
    }
    match number_after_marker(name, &targetsize) {
        Some(px) => Some(px as u64),
        None => match number_after_marker(name, &scale_m) {
            Some(scale) => match base_size {
                Some(base) => {
                    let b = base as u64;
                    let sc = scale as u64;
                    assert(b * sc <= 0xffff_ffffu64 * 0xffff_ffffu64) by (nonlinear_arith)
                        requires
                            b <= 0xffff_ffffu64,
                            sc <= 0xffff_ffffu64,
                    ;
                    Some(b * sc / 100)
                },
                None => None,
            },
            None => None,
        },
    }
}

/// How far a pixel size is from [`TARGET_PX`].
fn distance_of(px: Option<u64>) -> (d: Option<u64>)
    ensures
        wide_view(d) == distance(wide_view(px)),
{
    match px {
        Some(s) => if s >= TARGET_PX as u64 {
            Some(s - TARGET_PX as u64)
        } else {
            Some(TARGET_PX as u64 - s)
        },
        None => None,
    }
}

/// Whether distance `a` is strictly closer than distance `b`.
fn is_closer(a: Option<u64>, b: Option<u64>) -> (r: bool)
    ensures
        r == closer(wide_view(a), wide_view(b)),
{
    match (a, b) {
        (Some(x), Some(y)) => x < y,
        (Some(_), None) => true,
        (None, _) => false,
    }
}

/// Finds the variant of a logo whose pixel size is closest to
/// [`TARGET_PX`], among the files beside the logo, in the order they were
/// listed. A variant is a regular file whose name starts with the logo's
/// stem, ends with its extension, and has no theme or contrast qualifier.
/// Its size is given directly (`Logo.targetsize-64.png`) or as a scale of
/// the logo's base size (`Logo.scale-150.png`: base size × 150 / 100).
/// The size is computed exactly (the product of base size and scale does
/// not wrap). Where several variants are equally close, the first is
/// chosen; a variant of unknown size is chosen only if no variant has a
/// known size.
pub fn find_best_variant(stem: &str, ext: &str, base_size: Option<u32>, files: &Vec<VariantFile>) -> (r: Option<usize>)
    ensures
        r is None <==> forall|j: int| 0 <= j < files@.len() ==> !is_variant(#[trigger] files@[j], stem@, ext@),
        r matches Some(k) ==> is_best_variant(files@, stem@, ext@, base_size, k as int),
{
    let stem_chars = chars_of(stem);
    let dot = chars_of(".");
    proof {
        reveal_strlit(".");
    }
    let mut suffix = dot;
    let mut ext_chars = chars_of(ext);
    suffix.append(&mut ext_chars);
    assert(suffix@ =~= seq!['.'] + ext@);
    let mut best: Option<(usize, Option<u64>)> = None;
    let mut k: usize = 0;
    while k < files.len()
        invariant
            k <= files.len(),
            stem_chars@ == stem@,
            suffix@ == seq!['.'] + ext@,
            best is None ==> forall|j: int| 0 <= j < k ==> !is_variant(#[trigger] files@[j], stem@, ext@),
            best matches Some((b, d)) ==> b < k && wide_view(d) == variant_distance(
                files@[b as int],
                base_size,
            ) && is_variant(files@[b as int], stem@, ext@) && forall|j: int|
                0 <= j < k && is_variant(#[trigger] files@[j], stem@, ext@) ==> {
                    &&& no_farther(wide_view(d), variant_distance(files@[j], base_size))
                    &&& j < b ==> closer(wide_view(d), variant_distance(files@[j], base_size))
                },
        decreases files.len() - k,
    {
        let f = &files[k];
        if f.is_file {
            match &f.name {
                Some(name) => {
                    let n = chars_of(name.as_str());
                    if variant_name_matches(&n, &stem_chars, &suffix) {
                        let d = distance_of(variant_pixel_size(&n, base_size));
                        match best {
                            Some((_, bd)) => {
                                if is_closer(d, bd) {
                                    best = Some((k, d));
                                }
                            },
                            None => {
                                best = Some((k, d));
                            },
                        }
                    }
                },
                None => {},
            }
        }
        k = k + 1;
    }
    match best {
        Some((b, _)) => Some(b),
        None => None,
    }
}

/// The size of a variant is read from its name: a `targetsize-` segment
/// gives it in pixels, whatever else the name holds; without one, a
/// `scale-` segment gives it as `base_size × scale / 100`, and as nothing
/// when the base size is unknown.
pub proof fn law_variant_sizes(
    prefix: Seq<char>,
    marker: Seq<char>,
    n: u32,
    rest: Seq<char>,
    base_size: Option<u32>,
)
    requires
        marker == targetsize_marker() || marker == scale_marker(),
        !contains(prefix, marker),
        rest.len() == 0 || !is_digit(rest[0]),
    ensures
        ({
            let name = prefix + marker + decimal_digits(n as nat) + rest;
            &&& marker == targetsize_marker() ==> pixel_size(name, base_size) == Some(n as nat)
            &&& marker == scale_marker() && !contains(name, targetsize_marker()) ==> pixel_size(
                name,
                base_size,
            ) == match base_size {
                Some(b) => Some((b * n / 100) as nat),
                None => None::<nat>,
            }
        }),
{
    law_number_read_back(prefix, marker, n, rest);
    let name = prefix + marker + decimal_digits(n as nat) + rest;
    if !contains(name, targetsize_marker()) {
        crate::text::lemma_find_from_none(name, targetsize_marker(), 0);
    }
}

/// A variant of exactly the wanted size is never passed over: where the
/// variants include one named with `targetsize-64`, the variant chosen is
/// 64 pixels large.
pub proof fn law_exact_size_wins(
    files: Seq<VariantFile>,
    stem: Seq<char>,
    ext: Seq<char>,
    base_size: Option<u32>,
    k: int,
    j: int,
    prefix: Seq<char>,
    rest: Seq<char>,
)
    requires
        is_best_variant(files, stem, ext, base_size, k),
        0 <= j < files.len(),
        is_variant(files[j], stem, ext),
        variant_name(files[j]) == Some(prefix + targetsize_marker() + seq!['6', '4'] + rest),
        !contains(prefix, targetsize_marker()),
        rest.len() == 0 || !is_digit(rest[0]),
    ensures
        variant_name(files[k]) matches Some(chosen) && pixel_size(chosen, base_size) == Some(
            TARGET_PX as nat,
        ),
{
    reveal_with_fuel(decimal_digits, 2);
    assert(decimal_digits(64) =~= seq!['6', '4']);
    law_variant_sizes(prefix, targetsize_marker(), 64, rest, base_size);
    assert(variant_distance(files[j], base_size) == Some(0nat));
}

// ---------------------------------------------------------------------------
// Logo candidates declared by the manifest
// ---------------------------------------------------------------------------
/// The local name of the element that declares the tile logos.
pub open spec fn visual_elements_name() -> Seq<u8> {
    encode_utf8("VisualElements"@)
}

/// The local name of the element that holds the package logo.
pub open spec fn logo_name() -> Seq<u8> {
    encode_utf8("Logo"@)
}

/// The attribute of the 44×44 logo.
pub open spec fn square44_attribute() -> Seq<u8> {
    encode_utf8("Square44x44Logo"@)
}

/// The attribute of the 150×150 logo.
pub open spec fn square150_attribute() -> Seq<u8> {
    encode_utf8("Square150x150Logo"@)
}

/// The raw value of the first readable attribute named `key`.
pub open spec fn first_attribute(attributes: Seq<Option<(Seq<u8>, Seq<u8>)>>, key: Seq<u8>) -> Option<Seq<u8>>
    decreases attributes.len(),
{
    if attributes.len() == 0 {
        None
    } else {
        match attributes[0] {
            Some((k, v)) => if k == key {
                Some(v)
            } else {
                first_attribute(attributes.drop_first(), key)
            },
            None => first_attribute(attributes.drop_first(), key),
        }
    }
}

/// The value of the attribute `key` of a tag, as text: the first readable
/// attribute with that name, if its value is valid UTF-8.
pub open spec fn attribute_text(tag: TagView, key: Seq<u8>) -> Option<Seq<char>> {
    match first_attribute(tag.attributes, key) {
        Some(v) => if valid_utf8(v) {
            Some(decode_utf8(v))
        } else {
            None
        },
        None => None,
    }
}

/// What has been gathered from the manifest's events so far.
pub struct ManifestScan {
    /// The tile logos, with their base sizes.
    pub visual: Seq<(Seq<char>, Option<u32>)>,
    /// The package logo, if one was found.
    pub package_logo: Option<Seq<char>>,
    /// Whether the text that follows is the content of a `Logo` element.
    pub inside_logo: bool,
    /// Whether the reading has ended.
    pub stopped: bool,
}

/// The tile logos that a `VisualElements` tag declares, in order: the 44×44
/// logo, then the 150×150 logo, as far as they are given.
pub open spec fn tile_logos(tag: TagView) -> Seq<(Seq<char>, Option<u32>)> {
    let small = match attribute_text(tag, square44_attribute()) {
        Some(v) => seq![(v, Some(44u32))],
        None => seq![],
    };
    let large = match attribute_text(tag, square150_attribute()) {
        Some(v) => seq![(v, Some(150u32))],
        None => seq![],
    };
    small + large
}

/// The scan after one more event.
pub open spec fn scan_step(st: ManifestScan, event: EventView) -> ManifestScan {
    if st.stopped {
        st
    } else {
        match event {
            EventView::Start(tag) => tag_step(st, tag),
            EventView::Empty(tag) => tag_step(st, tag),
            EventView::Text(text) => if st.inside_logo {
                let logo = match text {
                    Some(t) => trim(t),
                    None => seq![],
                };
                ManifestScan {
                    package_logo: if logo.len() > 0 {
                        Some(logo)
                    } else {
                        st.package_logo
                    },
                    inside_logo: false,
                    ..st
                }
            } else {
                st
            },
            EventView::End(name) => if name == logo_name() {
                ManifestScan { inside_logo: false, ..st }
            } else {
                st
            },
            EventView::Other => st,
            EventView::Eof => ManifestScan { stopped: true, ..st },
            EventView::Error => ManifestScan { stopped: true, ..st },
        }
    }
}

/// The scan after a start or empty tag.
pub open spec fn tag_step(st: ManifestScan, tag: TagView) -> ManifestScan {
    if tag.local_name == visual_elements_name() {
        ManifestScan { visual: st.visual + tile_logos(tag), ..st }
    } else if tag.local_name == logo_name() {
        ManifestScan { inside_logo: true, ..st }
    } else {
        st
    }
}

/// The scan of `events`, from the start, up to the first end of input or
/// error.
pub open spec fn scan(events: Seq<EventView>) -> ManifestScan
    decreases events.len(),
{
    if events.len() == 0 {
        ManifestScan { visual: seq![], package_logo: None, inside_logo: false, stopped: false }
    } else {
        scan_step(scan(events.drop_last()), events.last())
    }
}

/// The logo candidates of a manifest with these events: the tile logos of
/// the `VisualElements` tags, in order, then the package logo (the last
/// non-empty `Logo` text), with no base size.
pub open spec fn logo_candidates(events: Seq<EventView>) -> Seq<(Seq<char>, Option<u32>)> {
    let st = scan(events);
    match st.package_logo {
        Some(logo) => st.visual.push((logo, None)),
        None => st.visual,
    }
}

/// The view of a list of candidates.
pub open spec fn candidates_view(c: Seq<(String, Option<u32>)>) -> Seq<(Seq<char>, Option<u32>)> {
    c.map_values(|p: (String, Option<u32>)| (p.0@, p.1))
}

/// `String::from_utf8`: the text that `bytes` encode in UTF-8, if they are
/// valid UTF-8. Claimed: the result is `Some` exactly for valid UTF-8, and
/// then holds the decoded characters.
#[verifier::external_body]
fn string_from_utf8(bytes: Vec<u8>) -> (r: Option<String>)
    ensures
        r is Some <==> valid_utf8(bytes@),
        r matches Some(s) ==> s@ == decode_utf8(bytes@),
{
    String::from_utf8(bytes).ok()
}

/// Whether the bytes of `a` are those of the text `s`.
fn bytes_match(a: &Vec<u8>, s: &str) -> (r: bool)
    ensures
        r == (a@ == encode_utf8(s@)),
{
    let b = s.as_bytes();
    if a.len() != b.len() {
        return false;
    }
    let mut i: usize = 0;
    while i < a.len()
        invariant
            a.len() == b@.len(),
            b@ == encode_utf8(s@),
            i <= a.len(),
            forall|k: int| 0 <= k < i ==> a@[k] == b@[k],
        decreases a.len() - i,
    {
        if a[i] != b[i] {
            return false;
        }
        i = i + 1;
    }
    assert(a@ =~= b@);
    true
}

/// The value of the attribute `name` of a tag, as text: the first readable
/// attribute with that name, if its value is valid UTF-8.
pub fn get_attr(tag: &XmlTag, name: &str) -> (r: Option<String>)
    ensures
        r matches Some(v) ==> attribute_text(tag@, encode_utf8(name@)) == Some(v@),
        r is None ==> attribute_text(tag@, encode_utf8(name@)) is None,
{
    let ghost attrs = tag@.attributes;
    assert(attrs.skip(0) =~= attrs);
    let mut k: usize = 0;
    while k < tag.attributes.len()
        invariant
            k <= tag.attributes.len(),
            attrs == tag@.attributes,
            first_attribute(attrs, encode_utf8(name@)) == first_attribute(
                attrs.skip(k as int),
                encode_utf8(name@),
            ),
        decreases tag.attributes.len() - k,
    {
        proof {
            assert(attrs.skip(k as int).drop_first() =~= attrs.skip(k + 1));
            assert(attrs.skip(k as int)[0] == crate::xml::attribute_view(tag.attributes@[k as int]));
        }
        match &tag.attributes[k] {
            Some(attr) => {
                if bytes_match(&attr.key, name) {
                    return string_from_utf8(attr.value.clone());
                }
            },
            None => {},
        }
        k = k + 1;
    }
    None
}

/// The exec state of the scan.
struct ScanState {
    visual: Vec<(String, Option<u32>)>,
    package_logo: Option<String>,
    inside_logo: bool,
}

impl ScanState {
    spec fn matches(&self, st: ManifestScan) -> bool {
        &&& candidates_view(self.visual@) == st.visual
        &&& match self.package_logo {
            Some(l) => st.package_logo == Some(l@),
            None => st.package_logo is None,
        }
        &&& self.inside_logo == st.inside_logo
        &&& !st.stopped
    }
}

/// Appends the tile logo that the attribute `attribute` of a tag gives.
fn push_tile_logo(visual: &mut Vec<(String, Option<u32>)>, tag: &XmlTag, attribute: &str, base: u32)
    ensures
        candidates_view(final(visual)@) == candidates_view(old(visual)@) + match attribute_text(
            tag@,
            encode_utf8(attribute@),
        ) {
            Some(v) => seq![(v, Some(base))],
            None => seq![],
        },
{
    match get_attr(tag, attribute) {
        Some(value) => {
            visual.push((value, Some(base)));
            assert(candidates_view(visual@) =~= candidates_view(old(visual)@).push(
                (value@, Some(base)),
            ));
        },
        None => {
            assert(candidates_view(visual@) =~= candidates_view(old(visual)@));
        },
    }
}

/// The logo candidates of a manifest with these events: the tile logos
/// (`Square44x44Logo` and `Square150x150Logo` of `VisualElements`, with
/// base sizes 44 and 150) in order, then the package logo (the last
/// non-empty text of a `Logo` element), with no base size. The events
/// after the first end of input or error are not looked at.
pub fn candidates_from_events(events: &Vec<XmlEvent>) -> (r: Vec<(String, Option<u32>)>)
    ensures
        candidates_view(r@) == logo_candidates(events@.map_values(|e: XmlEvent| e@)),
{
    let ghost all = events@.map_values(|e: XmlEvent| e@);
    let mut st = ScanState { visual: Vec::new(), package_logo: None, inside_logo: false };
    assert(candidates_view(st.visual@) =~= seq![]);
    let mut k: usize = 0;
    let mut stopped = false;
    while k < events.len() && !stopped
        invariant
            k <= events.len(),
            all == events@.map_values(|e: XmlEvent| e@),
            !stopped ==> st.matches(scan(all.take(k as int))),
            stopped ==> scan(all).stopped && candidates_view(st.visual@) == scan(all).visual
                && match st.package_logo {
                Some(l) => scan(all).package_logo == Some(l@),
                None => scan(all).package_logo is None,
            },
        decreases events.len() - k,
    {
        let ghost before = scan(all.take(k as int));
        proof {
            assert(all.take(k + 1).drop_last() =~= all.take(k as int));
            assert(all.take(k + 1).last() == events@[k as int]@);
        }
        match &events[k] {
            XmlEvent::Start(tag) | XmlEvent::Empty(tag) => {
                if bytes_match(&tag.local_name, "VisualElements") {
                    push_tile_logo(&mut st.visual, tag, "Square44x44Logo", 44);
                    push_tile_logo(&mut st.visual, tag, "Square150x150Logo", 150);
                    proof {
                        assert(candidates_view(st.visual@) =~= before.visual + tile_logos(tag@));
                    }
                } else if bytes_match(&tag.local_name, "Logo") {
                    st.inside_logo = true;
                }
            },
            XmlEvent::Text(text) => {
                if st.inside_logo {
                    match text {
                        Some(t) => {
                            let logo = trim_chars(&chars_of(t.as_str()));
                            if logo.len() > 0 {
                                st.package_logo = Some(string_from_chars(logo));
                            }
                        },
                        None => {},
                    }
                    st.inside_logo = false;
                }
            },
            XmlEvent::End(name) => {
                if bytes_match(name, "Logo") {
                    st.inside_logo = false;
                }
            },
            XmlEvent::Other => {},
            XmlEvent::Eof | XmlEvent::Error => {
                stopped = true;
            },
        }
        proof {
            if stopped {
                lemma_scan_stays_stopped(all, k + 1);
            }
        }
        k = k + 1;
    }
    proof {
        if !stopped {
            assert(all.take(k as int) =~= all);
        }
    }
    let ScanState { mut visual, package_logo, inside_logo: _ } = st;
    match package_logo {
        Some(logo) => {
            let ghost v = candidates_view(visual@);
            visual.push((logo, None));
            assert(candidates_view(visual@) =~= v.push((logo@, None)));
            visual
        },
        None => visual,
    }
}

/// Once the scan has stopped, later events leave it as it is.
proof fn lemma_scan_stays_stopped(events: Seq<EventView>, k: int)
    requires
        0 <= k <= events.len(),
        scan(events.take(k)).stopped,
    ensures
        scan(events) == scan(events.take(k)),
    decreases events.len() - k,
{
    if k < events.len() {
        assert(events.take(k + 1).drop_last() =~= events.take(k));
        lemma_scan_stays_stopped(events, k + 1);
    } else {
        assert(events.take(k) =~= events);
    }
}

/// Whether every candidate in `c` carries a tile base size, 44 or 150.
pub open spec fn all_tiles(c: Seq<(Seq<char>, Option<u32>)>) -> bool {
    forall|i: int| 0 <= i < c.len() ==> (#[trigger] c[i]).1 == Some(44u32) || c[i].1 == Some(150u32)
}

proof fn lemma_scan_tiles(events: Seq<EventView>)
    ensures
        all_tiles(scan(events).visual),
    decreases events.len(),
{
    if events.len() > 0 {
        let before = scan(events.drop_last());
        lemma_scan_tiles(events.drop_last());
        match events.last() {
            EventView::Start(tag) => {
                assert(all_tiles(before.visual + tile_logos(tag)));
            },
            EventView::Empty(tag) => {
                assert(all_tiles(before.visual + tile_logos(tag)));
            },
            _ => {},
        }
    }
}

/// The tile logos come first: every candidate that a manifest declares has
/// the base size of a tile (44 or 150), except possibly the last, the
/// package logo, which has none.
pub proof fn law_tile_logos_first(events: Seq<EventView>)
    ensures
        ({
            let c = logo_candidates(events);
            forall|i: int|
                0 <= i < c.len() ==> (#[trigger] c[i]).1 == Some(44u32) || c[i].1 == Some(150u32) || (
                i == c.len() - 1 && c[i].1 is None)
        }),
{
    lemma_scan_tiles(events);
}

/// Collects the logo candidates of a manifest, the tile logos of
/// `VisualElements` first, then the package logo.
pub fn extract_logo_candidates(manifest: &str) -> (r: Vec<(String, Option<u32>)>)
    ensures
        candidates_view(r@) == logo_candidates(xml_events(manifest@)),
{
    let events = read_xml_events(manifest);
    candidates_from_events(&events)
}

// ---------------------------------------------------------------------------
// Locating the manifest and the logo file
// ---------------------------------------------------------------------------
/// Finds the directory that holds the package manifest: of the directories
/// from the executable's directory up to the root (`dir_count` of them, by
/// their index in that order), the first one for which `has_manifest`
/// reports an `AppxManifest.xml`. Each directory is asked about at most
/// once, in order, and none after the first that has one.
pub fn find_manifest_dir<F: Fn(usize) -> bool>(dir_count: usize, has_manifest: F) -> (r: Option<
    usize,
>)
    requires
        forall|i: usize| i < dir_count ==> has_manifest.requires((i,)),
    ensures
        r matches Some(i) ==> i < dir_count && has_manifest.ensures((i,), true),
        forall|j: usize|
            j < dir_count && (r matches Some(i) ==> j < i) ==> has_manifest.ensures((j,), false),
{
    let mut i: usize = 0;
    while i < dir_count
        invariant
            i <= dir_count,
            forall|k: usize| k < dir_count ==> has_manifest.requires((k,)),
            forall|j: usize| j < i ==> has_manifest.ensures((j,), false),
        decreases dir_count - i,
    {
        let found = has_manifest(i);
        if found {
            return Some(i);
        }
        i = i + 1;
    }
    None
}

/// Whether candidate `i` resolves to `p`: to its best size variant, or, if
/// it has none, to the existing logo file.
pub open spec fn resolves<P, F: Fn(usize) -> Option<P>, G: Fn(usize) -> Option<P>>(
    best_variant: F,
    existing_file: G,
    i: usize,
    p: P,
) -> bool {
    best_variant.ensures((i,), Some(p)) || (best_variant.ensures((i,), None)
        && existing_file.ensures((i,), Some(p)))
}

/// A logo's size variant comes before the logo file: where the best-variant
/// lookup of a candidate can only give the variant `v`, that candidate
/// resolves to `v` and to nothing else, whatever files exist; and the
/// existing logo file is taken only for a candidate whose lookup gives no
/// variant.
pub proof fn law_variant_before_logo_file<P, F: Fn(usize) -> Option<P>, G: Fn(usize) -> Option<P>>(
    best_variant: F,
    existing_file: G,
    i: usize,
    v: P,
    p: P,
)
    ensures
        (forall|o: Option<P>| best_variant.ensures((i,), o) ==> o == Some(v)) && resolves(
            best_variant,
            existing_file,
            i,
            p,
        ) ==> p == v,
        resolves(best_variant, existing_file, i, p) && !best_variant.ensures((i,), Some(p))
            ==> best_variant.ensures((i,), None) && existing_file.ensures((i,), Some(p)),
{
    if (forall|o: Option<P>| best_variant.ensures((i,), o) ==> o == Some(v)) && resolves(
        best_variant,
        existing_file,
        i,
        p,
    ) {
        if best_variant.ensures((i,), Some(p)) {
            assert(Some(p) == Some(v));
        } else {
            assert(best_variant.ensures((i,), None));
            assert(None::<P> == Some(v));
        }
    }
}

/// Resolves the icon file of a package from its logo candidates (`count` of
/// them, by index, in the order of [`extract_logo_candidates`]): for the
/// first candidate that resolves, the size variant closest to the wanted
/// size if there is one (`best_variant`), or else the logo file itself if
/// it exists (`existing_file`).
pub fn resolve_from_manifest<P, F: Fn(usize) -> Option<P>, G: Fn(usize) -> Option<P>>(
    count: usize,
    best_variant: F,
    existing_file: G,
) -> (r: Option<P>)
    requires
        forall|i: usize| i < count ==> best_variant.requires((i,)) && existing_file.requires((i,)),
    ensures
        r matches Some(p) ==> exists|i: usize|
            i < count && #[trigger] resolves(best_variant, existing_file, i, p) && forall|j: usize|
                j < i ==> best_variant.ensures((j,), None) && existing_file.ensures((j,), None),
        r is None ==> forall|j: usize|
            j < count ==> best_variant.ensures((j,), None) && existing_file.ensures((j,), None),
{
    let mut i: usize = 0;
    while i < count
        invariant
            i <= count,
            forall|k: usize| k < count ==> best_variant.requires((k,)) && existing_file.requires((k,)),
            forall|j: usize| j < i ==> best_variant.ensures((j,), None) && existing_file.ensures((j,), None),
        decreases count - i,
    {
        let variant = best_variant(i);
        match variant {
            Some(p) => {
                assert(resolves(best_variant, existing_file, i, p));
                return Some(p);
            },
            None => {},
        }
        let existing = existing_file(i);
        match existing {
            Some(p) => {
                assert(resolves(best_variant, existing_file, i, p));
                return Some(p);
            },
            None => {},
        }
        i = i + 1;
    }
    None
}

} // verus!
