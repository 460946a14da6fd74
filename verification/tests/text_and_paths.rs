use process_icon::desktop::has_desktop_extension;
use process_icon::lookup::{lookup_icon, theme_icon_source, IconLookup, ThemeIconFormat};
use process_icon::text::{chars_of, is_whitespace, trim_chars};
use process_icon::unix_path::find_app_bundle_path;
use process_icon::{get_icon_by_path, IconSource};
use std::path::Path;

/// The bundle search as the standard library's Unix paths do it.
fn bundle_by_std(exe_path: &str) -> Option<String> {
    let mut current = Path::new(exe_path);
    let mut last_app_dir: Option<std::path::PathBuf> = None;
    loop {
        if let Some(file_name) = current.file_name() {
            if file_name.to_string_lossy().ends_with(".app") {
                last_app_dir = Some(current.to_path_buf());
            }
        }
        match current.parent() {
            Some(parent) => current = parent,
            None => break,
        }
    }
    last_app_dir.map(|p| p.to_string_lossy().into_owned())
}

/// All paths of up to `depth` pieces drawn from `pieces`.
fn paths(pieces: &[&str], depth: usize) -> Vec<String> {
    let mut all = vec![String::new()];
    let mut layer = vec![String::new()];
    for _ in 0..depth {
        let mut next = Vec::new();
        for p in &layer {
            for q in pieces {
                next.push(format!("{p}{q}"));
            }
        }
        all.extend(next.iter().cloned());
        layer = next;
    }
    all
}

#[test]
fn whitespace_agrees_with_std_for_every_char() {
    for code in 0u32..=0x10FFFF {
        if let Some(c) = char::from_u32(code) {
            assert_eq!(is_whitespace(c), c.is_whitespace(), "U+{code:04X}");
        }
    }
}

#[test]
fn trim_agrees_with_std() {
    for s in ["", "  ", " a ", "\t\u{3000}x y\u{a0}\n", "abc", "\r\nIcon\r", "\u{85}z"] {
        let trimmed = String::from_iter(trim_chars(&chars_of(s)));
        assert_eq!(trimmed, s.trim());
    }
}

#[test]
fn chars_round_trip() {
    let s = "héllo wörld 𝄞";
    assert_eq!(String::from_iter(chars_of(s)), s);
    assert_eq!(chars_of(s).len(), s.chars().count());
}

#[test]
fn bundle_of_macos_executable() {
    assert_eq!(
        find_app_bundle_path("/Applications/Safari.app/Contents/MacOS/Safari"),
        Some("/Applications/Safari.app".to_string())
    );
}

#[test]
fn bundle_is_outermost() {
    assert_eq!(
        find_app_bundle_path("/Applications/Xcode.app/Contents/Developer/Simulator.app/Contents/MacOS/Simulator"),
        Some("/Applications/Xcode.app".to_string())
    );
}

#[test]
fn bundle_absent() {
    assert_eq!(find_app_bundle_path("/usr/bin/zsh"), None);
    assert_eq!(find_app_bundle_path(""), None);
    assert_eq!(find_app_bundle_path("/"), None);
}

#[test]
fn bundle_is_the_path_itself() {
    assert_eq!(find_app_bundle_path("/Applications/Foo.app/"), Some("/Applications/Foo.app/".to_string()));
    assert_eq!(find_app_bundle_path("Foo.app"), Some("Foo.app".to_string()));
    assert_eq!(find_app_bundle_path("./Foo.app/./"), Some("./Foo.app/./".to_string()));
}

#[test]
fn bundle_stops_at_the_component() {
    assert_eq!(find_app_bundle_path("/x//A.app//./b"), Some("/x//A.app".to_string()));
    assert_eq!(find_app_bundle_path("A.app/../b"), Some("A.app".to_string()));
}

#[test]
fn bundle_of_bundle_is_itself() {
    for p in ["/Applications/Xcode.app/Contents/Developer/Simulator.app/x", "a/B.app/./", "./C.app/d"] {
        let b = find_app_bundle_path(p).unwrap();
        assert_eq!(find_app_bundle_path(&b), Some(b.clone()));
    }
}

#[test]
fn bundle_agrees_with_std_paths() {
    let pieces = ["/", ".", "..", "a", "x.app", ".app", "//", "/."];
    for p in paths(&pieces, 5) {
        assert_eq!(find_app_bundle_path(&p), bundle_by_std(&p), "path {p:?}");
    }
}

#[test]
fn desktop_extension_agrees_with_std_paths() {
    let pieces = ["/", ".", "..", "a", "desktop", ".desktop", "b.desktop", "x."];
    for p in paths(&pieces, 4) {
        let by_std = Path::new(&p).extension().and_then(|e| e.to_str()) == Some("desktop");
        assert_eq!(has_desktop_extension(&p), by_std, "path {p:?}");
    }
}

#[test]
fn unsupported_os() {
    match get_icon_by_path() {
        Err(message) => assert_eq!(message, "This OS isn't supported yet"),
        Ok(_) => panic!("expected an error"),
    }
}

#[test]
fn absolute_png_is_an_image() {
    match lookup_icon("firefox".to_string(), Some("/usr/share/pixmaps/firefox.png".to_string())) {
        IconLookup::Found(IconSource::ImagePath(p)) => assert_eq!(p, "/usr/share/pixmaps/firefox.png"),
        _ => panic!("expected an image path"),
    }
}

#[test]
fn absolute_svg_is_a_vector_image() {
    match lookup_icon("/opt/app/icon.svg".to_string(), None) {
        IconLookup::Found(IconSource::SvgPath(p)) => assert_eq!(p, "/opt/app/icon.svg"),
        _ => panic!("expected an SVG path"),
    }
}

#[test]
fn absolute_other_file_is_unsupported() {
    assert!(matches!(lookup_icon("x".to_string(), Some("/opt/app/icon.xpm".to_string())), IconLookup::Unsupported));
    assert!(matches!(lookup_icon("x".to_string(), Some("/opt/app/.png".to_string())), IconLookup::Unsupported));
    assert!(matches!(lookup_icon("x".to_string(), Some("/".to_string())), IconLookup::Unsupported));
}

#[test]
fn relative_name_is_looked_up_in_themes() {
    match lookup_icon("code".to_string(), Some("vscode".to_string())) {
        IconLookup::InThemes(n) => assert_eq!(n, "vscode"),
        _ => panic!("expected a theme lookup"),
    }
    match lookup_icon("htop".to_string(), None) {
        IconLookup::InThemes(n) => assert_eq!(n, "htop"),
        _ => panic!("expected a theme lookup"),
    }
    match lookup_icon("x".to_string(), Some("icons/app.png".to_string())) {
        IconLookup::InThemes(n) => assert_eq!(n, "icons/app.png"),
        _ => panic!("expected a theme lookup"),
    }
}

#[test]
fn theme_files_by_format() {
    assert!(matches!(theme_icon_source("/i/a.png".to_string(), ThemeIconFormat::Png), Some(IconSource::ImagePath(p)) if p == "/i/a.png"));
    assert!(matches!(theme_icon_source("/i/a.svg".to_string(), ThemeIconFormat::Svg), Some(IconSource::SvgPath(p)) if p == "/i/a.svg"));
    assert!(theme_icon_source("/i/a.xpm".to_string(), ThemeIconFormat::Xpm).is_none());
}
