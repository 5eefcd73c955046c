use fed::macos::{
    discover_open_options, display_name_from_app_path, display_name_from_parts, file_url_failure,
    interior_nul_failure, launch_services_failure,
};

#[test]
fn display_name_is_the_bundle_stem() {
    assert_eq!(display_name_from_app_path("/Applications/Preview.app"), "Preview");
    assert_eq!(display_name_from_app_path("/Applications/Visual Studio Code.app/"), "Visual Studio Code");
    assert_eq!(display_name_from_app_path("/Applications/.hidden"), ".hidden");
}

#[test]
fn display_name_without_file_name_is_the_path() {
    assert_eq!(display_name_from_app_path("/"), "/");
    assert_eq!(display_name_from_app_path("/Applications/.."), "/Applications/..");
}

#[test]
fn display_name_parts_fall_back_in_order() {
    assert_eq!(display_name_from_parts("/p", Some("s".to_string()), Some("n".to_string())), "s");
    assert_eq!(display_name_from_parts("/p", None, Some("n".to_string())), "n");
    assert_eq!(display_name_from_parts("/p", None, None), "/p");
}

#[test]
fn discovery_lists_each_readable_path() {
    let paths = vec![
        Some("/Applications/Preview.app".to_string()),
        None,
        Some("/System/Applications/TextEdit.app".to_string()),
    ];
    let options = discover_open_options(&paths);
    assert_eq!(options.len(), 2);
    assert_eq!(options[0].name, "Preview");
    assert_eq!(options[0].id, None);
    assert_eq!(options[0].path.as_deref(), Some("/Applications/Preview.app"));
    assert_eq!(options[1].name, "TextEdit");
}

#[test]
fn failure_texts_quote_the_path() {
    assert_eq!(
        launch_services_failure("/tmp/a.txt", "-10814"),
        "could not query Launch Services for '/tmp/a.txt': status -10814"
    );
    assert_eq!(interior_nul_failure("/x"), "path contains an interior NUL byte: '/x'");
    assert_eq!(file_url_failure("/x"), "could not create file URL for '/x'");
}
