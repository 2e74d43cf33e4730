use edt_down_for_me::cli::{exit_code, handle_cli, parse_cli, CliRequest};

#[test]
fn help_and_version_exit_zero() {
    assert_eq!(handle_cli(&["--help"]), Some(0));
    assert_eq!(handle_cli(&["-h"]), Some(0));
    assert_eq!(handle_cli(&["--version"]), Some(0));
    assert_eq!(handle_cli(&["-V"]), Some(0));
}

#[test]
fn unknown_option_exits_two() {
    assert_eq!(handle_cli(&["--nope"]), Some(2));
}

#[test]
fn no_args_starts_gui() {
    assert_eq!(handle_cli(&Vec::<&str>::new()), None);
}

#[test]
fn requests_are_told_apart() {
    assert_eq!(parse_cli(&["-V", "-h"]), CliRequest::Help);
    assert_eq!(parse_cli(&["--version", "-V"]), CliRequest::Version);
    assert_eq!(parse_cli(&["-h", "-x", "-y"]), CliRequest::UnknownOption("-x".to_string()));
    assert_eq!(parse_cli(&["--HELP"]), CliRequest::UnknownOption("--HELP".to_string()));
    assert_eq!(parse_cli(&["-v"]), CliRequest::UnknownOption("-v".to_string()));
    assert_eq!(parse_cli(&[]), CliRequest::StartGui);
    assert_eq!(exit_code(&CliRequest::UnknownOption(String::new())), Some(2));
    assert_eq!(handle_cli(&["--help", "--bogus"]), Some(2));
}
