use fed::linux::{
    after_default_query, after_reading_files, after_type_query, LinuxStep,
    application_dirs, discover_open_options, is_desktop_file, parse_desktop_entry,
    xdg_mime_outcome, xdg_mime_spawn_failure, DesktopFile,
};

const VIEWER: &str = "[Desktop Entry]\nType=Application\nName=Image Viewer\nMimeType=image/png;image/jpeg;\nExec=viewer %f\n";

#[test]
fn parses_name_and_mime_types() {
    let entry = parse_desktop_entry(VIEWER).unwrap();
    assert_eq!(entry.name, "Image Viewer");
    assert_eq!(entry.mime_types, ["image/png", "image/jpeg"]);
}

#[test]
fn localized_name_is_preferred() {
    let text = "[Desktop Entry]\nName=Files\nName[de]=Dateien\nName[fr]=Fichiers\n";
    assert_eq!(parse_desktop_entry(text).unwrap().name, "Dateien");
}

#[test]
fn last_plain_name_wins() {
    let text = "[Desktop Entry]\nName=One\nName=Two\n";
    assert_eq!(parse_desktop_entry(text).unwrap().name, "Two");
}

#[test]
fn hidden_entry_is_none() {
    let text = "[Desktop Entry]\nName=Secret\nNoDisplay=TRUE\nMimeType=text/plain;\n";
    assert!(parse_desktop_entry(text).is_none());
}

#[test]
fn hidden_whatever_follows() {
    let head = "[Desktop Entry]\nNoDisplay=true\n";
    let text = format!("{}Name=Shown\n[Desktop Entry]\nNoDisplay=false\n", head);
    assert!(parse_desktop_entry(&text).is_none());
}

#[test]
fn no_display_false_is_shown() {
    let text = "[Desktop Entry]\nNoDisplay=false\nName=Shown\n";
    assert_eq!(parse_desktop_entry(text).unwrap().name, "Shown");
}

#[test]
fn no_name_is_none() {
    assert!(parse_desktop_entry("[Desktop Entry]\nMimeType=text/plain;\n").is_none());
    assert!(parse_desktop_entry("").is_none());
}

#[test]
fn other_groups_are_ignored() {
    let text = "[Desktop Action New]\nName=New Window\nNoDisplay=true\n[Desktop Entry]\nName=Browser\n[Other]\nName=Nope\nMimeType=text/html;\n";
    let entry = parse_desktop_entry(text).unwrap();
    assert_eq!(entry.name, "Browser");
    assert!(entry.mime_types.is_empty());
}

#[test]
fn keys_before_any_group_are_ignored() {
    assert!(parse_desktop_entry("Name=Loose\n[Desktop Entry]\nType=Application\n").is_none());
}

#[test]
fn lines_are_trimmed_but_keys_are_not() {
    let text = "  [Desktop Entry]  \r\n\tName=Padded\r\nName [de]=Ignored\r\nMimeType = text/plain;\r\n";
    let entry = parse_desktop_entry(text).unwrap();
    assert_eq!(entry.name, "Padded");
    assert!(entry.mime_types.is_empty());
}

#[test]
fn comment_lines_change_nothing() {
    let plain = "[Desktop Entry]\nName=Editor\nMimeType=text/plain;\n";
    let commented = "[Desktop Entry]\n# Name=Commented\n\n   \nName=Editor\n#NoDisplay=true\nMimeType=text/plain;\n";
    let a = parse_desktop_entry(plain).unwrap();
    let b = parse_desktop_entry(commented).unwrap();
    assert_eq!(a.name, b.name);
    assert_eq!(a.mime_types, b.mime_types);
}

#[test]
fn mime_types_accumulate_and_skip_empty_pieces() {
    let text = "[Desktop Entry]\nName=X\nMimeType=;a/b;;c/d\nMimeType=e/f;\n";
    assert_eq!(parse_desktop_entry(text).unwrap().mime_types, ["a/b", "c/d", "e/f"]);
}

#[test]
fn value_keeps_later_equals_signs() {
    let text = "[Desktop Entry]\nName=a=b\n";
    assert_eq!(parse_desktop_entry(text).unwrap().name, "a=b");
}

fn file(path: &str, contents: Option<&str>) -> DesktopFile {
    DesktopFile { path: path.to_string(), contents: contents.map(|c| c.to_string()) }
}

#[test]
fn discovery_keeps_entries_declaring_the_type_or_default() {
    let files = vec![
        file("/usr/share/applications/viewer.desktop", Some(VIEWER)),
        file("/usr/share/applications/editor.desktop", Some("[Desktop Entry]\nName=Editor\nMimeType=text/plain;\n")),
        file("/usr/share/applications/paint.desktop", Some("[Desktop Entry]\nName=Paint\n")),
        file("/usr/share/applications/broken.desktop", None),
        file("/usr/share/applications/hidden.desktop", Some("[Desktop Entry]\nName=H\nNoDisplay=true\nMimeType=image/png;\n")),
    ];
    let options = discover_open_options("image/png", Some("paint.desktop"), &files);
    assert_eq!(options.len(), 2);
    assert_eq!(options[0].name, "Image Viewer");
    assert_eq!(options[0].id.as_deref(), Some("viewer.desktop"));
    assert_eq!(options[0].path.as_deref(), Some("/usr/share/applications/viewer.desktop"));
    assert_eq!(options[1].name, "Paint");
    assert_eq!(options[1].id.as_deref(), Some("paint.desktop"));
}

#[test]
fn discovery_for_unknown_type_is_empty() {
    let files = vec![file("/a/viewer.desktop", Some(VIEWER))];
    assert!(discover_open_options("", Some("viewer.desktop"), &files).is_empty());
    assert!(discover_open_options("text/plain", None, &files).is_empty());
}

#[test]
fn xdg_mime_success_is_trimmed_output() {
    assert_eq!(xdg_mime_outcome(true, "  image/png\n", "noise"), Ok("image/png".to_string()));
}

#[test]
fn xdg_mime_failure_quotes_error_output() {
    assert_eq!(
        xdg_mime_outcome(false, "", "  no such file \n"),
        Err("xdg-mime failed: no such file".to_string())
    );
    assert_eq!(xdg_mime_outcome(false, "out", " \n"), Err("xdg-mime failed".to_string()));
    assert_eq!(xdg_mime_spawn_failure("not found"), "could not run xdg-mime: not found");
}

#[test]
fn application_dirs_prefer_xdg_data_home() {
    let dirs = application_dirs(Some("/data"), Some("/home/u"), None);
    assert_eq!(dirs, ["/data/applications", "/usr/local/share/applications", "/usr/share/applications"]);
}

#[test]
fn application_dirs_fall_back_to_home() {
    let listed = vec!["/opt/share".to_string(), "/srv/share/".to_string()];
    let dirs = application_dirs(None, Some("/home/u"), Some(&listed));
    assert_eq!(dirs, ["/home/u/.local/share/applications", "/opt/share/applications", "/srv/share/applications"]);
    assert!(application_dirs(None, None, Some(&Vec::new())).is_empty());
}

#[test]
fn desktop_files_are_told_by_extension() {
    assert!(is_desktop_file("/usr/share/applications/firefox.desktop"));
    assert!(!is_desktop_file("/usr/share/applications/firefox.desktop.bak"));
    assert!(!is_desktop_file("/usr/share/applications/.desktop"));
    assert!(!is_desktop_file("/usr/share/applications/README"));
}

#[test]
fn trailing_other_group_changes_nothing() {
    let base = "[Desktop Entry]\nName=Viewer\nMimeType=image/png;";
    let tail = "# comment\n\n[Desktop Action Open]\nName=Open\nNoDisplay=true\nMimeType=text/plain;\n";
    let a = parse_desktop_entry(base).unwrap();
    let b = parse_desktop_entry(&format!("{}\n{}", base, tail)).unwrap();
    assert_eq!(a.name, b.name);
    assert_eq!(a.mime_types, b.mime_types);
    assert!(parse_desktop_entry(&format!("{}\n{}", "[Desktop Entry]\nType=Application", tail)).is_none());
}

#[test]
fn linux_steps_follow_the_queries() {
    assert!(matches!(after_type_query(Err("xdg-mime failed".to_string())), LinuxStep::Done(Err(e)) if e == "xdg-mime failed"));
    assert!(matches!(after_type_query(Ok(String::new())), LinuxStep::Done(Ok(v)) if v.is_empty()));
    assert!(matches!(after_type_query(Ok("image/png".to_string())), LinuxStep::QueryDefault(m) if m == "image/png"));
    match after_default_query("image/png".to_string(), Ok("viewer.desktop".to_string())) {
        LinuxStep::ReadFiles { mime_type, default_app } => {
            assert_eq!(mime_type, "image/png");
            assert_eq!(default_app.as_deref(), Some("viewer.desktop"));
        }
        _ => panic!("expected ReadFiles"),
    }
    match after_default_query("image/png".to_string(), Err("none".to_string())) {
        LinuxStep::ReadFiles { default_app, .. } => assert_eq!(default_app, None),
        _ => panic!("expected ReadFiles"),
    }
    let files = vec![file("/a/viewer.desktop", Some(VIEWER))];
    match after_reading_files("image/png", None, &files) {
        LinuxStep::Done(Ok(v)) => assert_eq!(v[0].name, "Image Viewer"),
        _ => panic!("expected options"),
    }
}
