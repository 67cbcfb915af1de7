use windisplaymanager::startup::{launched_minimized, quote_path, startup_command, MINIMIZED_ARG};

#[test]
fn startup_command_quotes_paths_and_adds_the_minimized_flag_only_when_asked() {
    let exe = r"C:\Program Files\Windows Display Manager\windisplaymanager_rs.exe";
    assert_eq!(
        startup_command(exe, false),
        r#""C:\Program Files\Windows Display Manager\windisplaymanager_rs.exe""#
    );
    assert_eq!(
        startup_command(exe, true),
        r#""C:\Program Files\Windows Display Manager\windisplaymanager_rs.exe" --minimized"#
    );
}

#[test]
fn inner_quotes_are_escaped() {
    assert_eq!(quote_path(r#"C:\a"b.exe"#), r#""C:\a\"b.exe""#);
}

#[test]
fn the_minimized_flag_is_found_anywhere_on_the_command_line() {
    assert!(launched_minimized(&vec!["app.exe".to_string(), MINIMIZED_ARG.to_string()]));
    assert!(!launched_minimized(&vec!["app.exe".to_string(), "--minimize".to_string()]));
    assert!(!launched_minimized(&vec![]));
}
