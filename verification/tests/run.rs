use fed::options::OpenOption;
use fed::run::{failure_message, missing_path_message, open_failure_message, option_names, OpenOutcome, OpenRun};
use fed::unsupported;

#[test]
fn messages_match_the_documented_formats() {
    assert_eq!(missing_path_message("notes.txt"), "fed: 'notes.txt': no such file or directory");
    assert_eq!(open_failure_message("a.pdf", "no opener"), "fed: could not open 'a.pdf': no opener");
    assert_eq!(failure_message("xdg-mime failed"), "fed: xdg-mime failed");
}

#[test]
fn run_without_failures_exits_zero() {
    let mut run = OpenRun::new();
    assert_eq!(run.record("a", OpenOutcome::Opened), None);
    assert_eq!(run.record("b", OpenOutcome::Opened), None);
    assert_eq!(run.exit_code(), 0);
    assert_eq!(OpenRun::new().exit_code(), 0);
}

#[test]
fn a_failure_anywhere_fails_the_run_and_later_files_still_count() {
    let mut run = OpenRun::new();
    assert_eq!(
        run.record("missing.txt", OpenOutcome::Missing).as_deref(),
        Some("fed: 'missing.txt': no such file or directory")
    );
    assert_eq!(run.record("present.txt", OpenOutcome::Opened), None);
    assert_eq!(
        run.record("x.bin", OpenOutcome::Failed("no application".to_string())).as_deref(),
        Some("fed: could not open 'x.bin': no application")
    );
    assert_eq!(run.exit_code(), 1);
}

#[test]
fn option_names_are_the_listed_names() {
    let option = |name: &str| OpenOption { name: name.to_string(), id: None, path: None };
    let names = option_names(vec![option("b"), option(""), option("A"), option("a")]);
    assert_eq!(names, ["A", "b"]);
}

#[test]
fn unsupported_platform_reports_so() {
    assert_eq!(
        unsupported::discover_open_options(),
        Err("application discovery is not supported on this platform".to_string())
    );
}
