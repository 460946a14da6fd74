//! What an icon name stands for on Linux: an image file given by its
//! absolute path, or a name to look up in the icon themes.
use crate::text::{chars_eq, chars_of, sub_chars};
use crate::unix_path::{extension, extension_range, has_root};
use crate::IconSource;
use vstd::prelude::*;

verus! {

/// What an icon name stands for.
pub enum IconLookup {
    /// The icon is this image file.
    Found(IconSource),
    /// The name is the path of a file that is neither a PNG nor an SVG image.
    Unsupported,
    /// The icon is to be looked up in the icon themes under this name.
    InThemes(String),
}

/// The formats of icon files in icon themes.
pub enum ThemeIconFormat {
    Png,
    Xpm,
    Svg,
}

/// The name under which the icon of the process `process_name` is looked
/// up: the icon that its desktop entry declares, or else the process name.
pub open spec fn icon_name(process_name: Seq<char>, entry_icon: Option<Seq<char>>) -> Seq<char> {
    match entry_icon {
        Some(n) => n,
        None => process_name,
    }
}

/// What the icon name `name` stands for: an absolute path is an image file,
/// a PNG (`png` extension) or an SVG (`svg` extension), or else unsupported;
/// any other name is looked up in the icon themes.
pub open spec fn lookup_of(name: Seq<char>, r: IconLookup) -> bool {
    if has_root(name) {
        if extension(name) == Some(seq!['p', 'n', 'g']) {
            r matches IconLookup::Found(IconSource::ImagePath(p)) && p@ == name
        } else if extension(name) == Some(seq!['s', 'v', 'g']) {
            r matches IconLookup::Found(IconSource::SvgPath(p)) && p@ == name
        } else {
            r is Unsupported
        }
    } else {
        r matches IconLookup::InThemes(n) && n@ == name
    }
}

/// Decides how to find the icon of the process `process_name`, given the
/// icon that its desktop entry declares, if any (see
/// [`crate::desktop::find_icon_name`]).
pub fn lookup_icon(process_name: String, entry_icon: Option<String>) -> (r: IconLookup)
    ensures
        lookup_of(
            icon_name(
                process_name@,
                match entry_icon {
                    Some(n) => Some(n@),
                    None => None,
                },
            ),
            r,
        ),
{
    let name = match entry_icon {
        Some(n) => n,
        None => process_name,
    };
    let s = chars_of(name.as_str());
    if s.len() > 0 && s[0] == '/' {
        let png = chars_of("png");
        let svg = chars_of("svg");
        proof {
            reveal_strlit("png");
            reveal_strlit("svg");
            assert(png@ =~= seq!['p', 'n', 'g']);
            assert(svg@ =~= seq!['s', 'v', 'g']);
        }
        match extension_range(&s) {
            Some((i, j)) => {
                let ext = sub_chars(&s, i, j);
                if chars_eq(&ext, &png) {
                    IconLookup::Found(IconSource::ImagePath(name))
                } else if chars_eq(&ext, &svg) {
                    IconLookup::Found(IconSource::SvgPath(name))
                } else {
                    IconLookup::Unsupported
                }
            },
            None => IconLookup::Unsupported,
        }
    } else {
        IconLookup::InThemes(name)
    }
}

/// An absolute path is taken by the extension of its file name, the text
/// after the file name's last `.`, whatever dots come before it: a file
/// name that ends in `.png` names a PNG image, one that ends in `.svg` an
/// SVG image, and one with any other extension (`PNG` among them) is not
/// supported. (`dir` is empty or starts at the root; `stem` is not empty
/// and holds no `/`; `ext` is not empty and holds neither `/` nor `.`.)
pub proof fn law_image_by_last_extension(
    dir: Seq<char>,
    stem: Seq<char>,
    ext: Seq<char>,
    r: IconLookup,
)
    requires
        dir.len() == 0 || dir[0] == '/',
        stem.len() > 0,
        forall|k: int| 0 <= k < stem.len() ==> stem[k] != '/',
        ext.len() > 0,
        forall|k: int| 0 <= k < ext.len() ==> ext[k] != '/' && ext[k] != '.',
    ensures
        ({
            let name = dir + seq!['/'] + stem + seq!['.'] + ext;
            &&& ext == seq!['p', 'n', 'g'] ==> (lookup_of(name, r) <==> (r matches IconLookup::Found(
                IconSource::ImagePath(p),
            ) && p@ == name))
            &&& ext == seq!['s', 'v', 'g'] ==> (lookup_of(name, r) <==> (r matches IconLookup::Found(
                IconSource::SvgPath(p),
            ) && p@ == name))
            &&& ext != seq!['p', 'n', 'g'] && ext != seq!['s', 'v', 'g'] ==> (lookup_of(name, r)
                <==> r is Unsupported)
        }),
{
    crate::unix_path::law_extension_after_last_dot(dir, stem, ext);
    assert(seq!['s', 'v', 'g'] != seq!['p', 'n', 'g']) by {
        assert(seq!['s', 'v', 'g'][0] != seq!['p', 'n', 'g'][0]);
    }
}

/// A name that is not an absolute path is looked up in the icon themes,
/// under that very name.
pub proof fn law_relative_names_in_themes(name: Seq<char>, r: IconLookup)
    requires
        name.len() == 0 || name[0] != '/',
    ensures
        lookup_of(name, r) <==> (r matches IconLookup::InThemes(n) && n@ == name),
{
}

/// The icon source of an icon file found in the icon themes: PNG and SVG
/// files are used, XPM files are not.
pub fn theme_icon_source(path: String, format: ThemeIconFormat) -> (r: Option<IconSource>)
    ensures
        format is Png ==> (r matches Some(IconSource::ImagePath(p)) && p@ == path@),
        format is Svg ==> (r matches Some(IconSource::SvgPath(p)) && p@ == path@),
        format is Xpm ==> r is None,
{
    match format {
        ThemeIconFormat::Png => Some(IconSource::ImagePath(path)),
        ThemeIconFormat::Svg => Some(IconSource::SvgPath(path)),
        ThemeIconFormat::Xpm => None,
    }
}

} // verus!
