use fed::windows::{
    after_assoc, after_ftype, start_discovery, WindowsStep,
    assoc_argument, command_output_text, command_program_path, discover_open_options,
    executable_name, prog_id_of, query_failure_message,
};

#[test]
fn quoted_program_is_read_to_the_closing_quote() {
    let command = "\"C:\\Program Files\\Notepad++\\notepad++.exe\" \"%1\"";
    assert_eq!(
        command_program_path(command).as_deref(),
        Some("C:\\Program Files\\Notepad++\\notepad++.exe")
    );
    assert_eq!(command_program_path("\"unterminated"), None);
}

#[test]
fn unquoted_program_is_the_first_word() {
    assert_eq!(command_program_path("  C:/Windows/notepad.exe %1 ").as_deref(), Some("C:/Windows/notepad.exe"));
    assert_eq!(command_program_path("   "), None);
}

#[test]
fn executable_name_is_the_program_stem() {
    assert_eq!(executable_name("\"C:/Tools/viewer.exe\" %1").as_deref(), Some("viewer"));
    assert_eq!(executable_name("/usr/bin/tool.sh --x").as_deref(), Some("tool"));
    assert_eq!(executable_name(""), None);
}

#[test]
fn command_output_is_trimmed_on_success_only() {
    assert_eq!(command_output_text(true, " .txt=txtfile\r\n"), ".txt=txtfile");
    assert_eq!(command_output_text(false, "File association not found"), "");
}

#[test]
fn assoc_argument_is_dotted_extension() {
    assert_eq!(assoc_argument("C:/docs/report.pdf").as_deref(), Some(".pdf"));
    assert_eq!(assoc_argument("archive.tar.gz").as_deref(), Some(".gz"));
    assert_eq!(assoc_argument("README"), None);
    assert_eq!(assoc_argument(".profile"), None);
}

#[test]
fn prog_id_is_after_the_equals_sign() {
    assert_eq!(prog_id_of("  .txt=txtfile \r\n").as_deref(), Some("txtfile"));
    assert_eq!(prog_id_of("no association"), None);
}

#[test]
fn discovery_names_the_program() {
    let options = discover_open_options("txtfile", "txtfile=%SystemRoot%/system32/NOTEPAD.EXE %1");
    assert_eq!(options.len(), 1);
    assert_eq!(options[0].name, "NOTEPAD");
    assert_eq!(options[0].id.as_deref(), Some("txtfile"));
    assert_eq!(options[0].path, None);
}

#[test]
fn discovery_falls_back_to_prog_id() {
    let options = discover_open_options("txtfile", "");
    assert_eq!(options[0].name, "txtfile");
    let options = discover_open_options("txtfile", "txtfile=\"unterminated");
    assert_eq!(options[0].name, "txtfile");
}

#[test]
fn query_failure_quotes_reason() {
    assert_eq!(query_failure_message("denied"), "could not query Windows file associations: denied");
}

#[test]
fn windows_steps_follow_the_queries() {
    assert!(matches!(start_discovery("C:/docs/a.txt"), WindowsStep::QueryAssoc(a) if a == ".txt"));
    assert!(matches!(start_discovery("C:/docs/README"), WindowsStep::Done(Ok(v)) if v.is_empty()));
    assert!(matches!(after_assoc(Err("denied".to_string())), WindowsStep::Done(Err(e)) if e == "denied"));
    assert!(matches!(after_assoc(Ok(".txt=txtfile\r\n".to_string())), WindowsStep::QueryFtype(p) if p == "txtfile"));
    assert!(matches!(after_assoc(Ok("not found".to_string())), WindowsStep::Done(Ok(v)) if v.is_empty()));
    match after_ftype("txtfile", Ok("txtfile=C:/Windows/notepad.exe %1".to_string())) {
        WindowsStep::Done(Ok(v)) => assert_eq!(v[0].name, "notepad"),
        _ => panic!("expected options"),
    }
    match after_ftype("txtfile", Err("denied".to_string())) {
        WindowsStep::Done(Ok(v)) => assert_eq!(v[0].name, "txtfile"),
        _ => panic!("expected options"),
    }
}
