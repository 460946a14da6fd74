use process_icon::desktop::{desktop_entry_icon, find_icon_name};
use std::path::Path;

/// The icon of one desktop entry, as the standard library's text and path
/// functions find it.
fn entry_icon_by_std(content: &str, name: &str) -> Option<String> {
    let mut ret_val = None;
    let mut found = false;
    for line in content.lines() {
        if let Some(icon_name) = line.strip_prefix("Icon=").map(|s| s.replace(['"', '\\'], "").trim().to_string()) {
            if !icon_name.is_empty() {
                ret_val = Some(icon_name);
            }
        }
        if let Some(exec_cmd) = line.strip_prefix("Exec=").map(|s| s.replace(['"', '\\'], "").trim().to_string()) {
            let parts: Vec<&str> = exec_cmd.split_whitespace().collect();
            if parts.iter().any(|part| {
                let part_name = Path::new(part).file_name().and_then(|s| s.to_str()).unwrap_or("");
                if name.len() < 15 {
                    part_name == name
                } else {
                    part_name.contains(name)
                }
            }) {
                found = true;
            }
        }
    }
    if found && ret_val.is_some() {
        ret_val
    } else {
        None
    }
}

const FIREFOX: &str = "[Desktop Entry]\nName=Firefox\nExec=/usr/lib/firefox/firefox %u\nIcon=firefox\nType=Application\n";

#[test]
fn entry_that_runs_the_process_gives_its_icon() {
    assert_eq!(desktop_entry_icon(FIREFOX, "firefox"), Some("firefox".to_string()));
}

#[test]
fn entry_of_another_process_gives_nothing() {
    assert_eq!(desktop_entry_icon(FIREFOX, "chrome"), None);
}

#[test]
fn entry_without_icon_gives_nothing() {
    assert_eq!(desktop_entry_icon("Exec=firefox\n", "firefox"), None);
    assert_eq!(desktop_entry_icon("Exec=firefox\nIcon=  \"\" \n", "firefox"), None);
}

#[test]
fn last_icon_line_wins_and_is_unquoted() {
    let entry = "Icon=first\nExec=\"/opt/My App/run\" --flag\nIcon= \"second\\\\icon\" \r\n";
    assert_eq!(desktop_entry_icon(entry, "run"), Some("secondicon".to_string()));
}

#[test]
fn long_names_match_by_containment() {
    let entry = "Exec=/opt/app/org.example.LongApplicationName-bin --x\nIcon=long\n";
    assert_eq!(desktop_entry_icon(entry, "LongApplicationName"), Some("long".to_string()));
    assert_eq!(desktop_entry_icon(entry, "Application"), None);
}

#[test]
fn short_name_limit_counts_bytes() {
    // 8 characters, 16 bytes: matched by containment.
    let entry = "Exec=/bin/xéééééééé\nIcon=accent\n";
    assert_eq!(desktop_entry_icon(entry, "éééééééé"), Some("accent".to_string()));
    assert_eq!(desktop_entry_icon(entry, "éééééééé"), entry_icon_by_std(entry, "éééééééé"));
}

#[test]
fn entries_agree_with_std() {
    let lines = [
        "Icon=app", "Icon=\"/usr/share/icons/app.png\"", "Icon=  ", "Icon=\\\\", "Exec=app", "Exec=/usr/bin/app %F",
        "Exec=env VAR=1 app", "Exec=\"app\"", "Exec=/opt/app/", "Exec=/opt/..", "Exec=", "Exec= . ", "icon=app",
        " Exec=app", "Exec=\u{2003}app\u{3000}", "Exec=apps", "Icon=other\r", "Exec=/", "",
    ];
    let names = ["app", "", "apps", "a", "/opt/app"];
    for a in &lines {
        for b in &lines {
            for c in ["", "Icon=tail", "Exec=app"] {
                for sep in ["\n", "\r\n"] {
                    let content = format!("{a}{sep}{b}{sep}{c}");
                    for name in names {
                        assert_eq!(
                            desktop_entry_icon(&content, name),
                            entry_icon_by_std(&content, name),
                            "content {content:?}, name {name:?}"
                        );
                    }
                }
            }
        }
    }
}

fn entries() -> (Vec<String>, Vec<Option<String>>) {
    let paths = vec![
        "/usr/share/applications/other.desktop".to_string(),
        "/usr/share/applications/broken.desktop".to_string(),
        "/usr/share/applications/notes.txt".to_string(),
        "/usr/share/applications/plain.desktop".to_string(),
        "/usr/share/applications/tool.desktop".to_string(),
        "/usr/share/applications/later.desktop".to_string(),
    ];
    let contents = vec![
        Some("Exec=other\nIcon=other\n".to_string()),
        None,
        Some("Exec=tool\nIcon=not-a-desktop-file\n".to_string()),
        Some("Exec=tool\n".to_string()),
        Some("Exec=/usr/bin/tool\nIcon=tool-icon\n".to_string()),
        Some("Exec=tool\nIcon=later\n".to_string()),
    ];
    (paths, contents)
}

#[test]
fn first_entry_with_an_icon_wins() {
    let (paths, contents) = entries();
    assert_eq!(find_icon_name("tool", &paths, |i| contents[i].clone()), Some("tool-icon".to_string()));
    assert_eq!(find_icon_name("nothing", &paths, |i| contents[i].clone()), None);
    assert_eq!(find_icon_name("tool", &Vec::new(), |_| None), None);
}

#[test]
fn only_desktop_files_are_read_and_reading_stops_at_the_answer() {
    let (paths, contents) = entries();
    let read = std::cell::RefCell::new(Vec::new());
    let icon = find_icon_name("tool", &paths, |i| {
        read.borrow_mut().push(i);
        contents[i].clone()
    });
    assert_eq!(icon, Some("tool-icon".to_string()));
    assert_eq!(read.into_inner(), vec![0, 1, 3, 4]);
}

#[test]
fn icon_names_are_clean() {
    let entry = "Exec=a\nIcon= \t\"x y\\\" \n";
    let icon = desktop_entry_icon(entry, "a").unwrap();
    assert_eq!(icon, "x y");
    assert!(!icon.is_empty() && icon.trim() == icon && !icon.contains('"') && !icon.contains('\\'));
}
