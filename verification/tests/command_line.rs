use ls_web::args::{parse_args, report_lines, ArgError, Config};

fn run(args: &[&str]) -> Result<Config, ArgError> {
    parse_args(&args.iter().map(|s| s.to_string()).collect())
}

fn ok(args: &[&str]) -> (String, u16, String, bool) {
    match run(args) {
        Ok(c) => (c.host, c.port, c.dir, c.sort_dirs_first),
        Err(_) => panic!("refused: {args:?}"),
    }
}

#[test]
fn defaults_without_options() {
    assert_eq!(ok(&[]), ("0.0.0.0".to_string(), 7878, ".".to_string(), false));
}

#[test]
fn each_option_in_both_forms() {
    assert_eq!(ok(&["--host", "127.0.0.1"]).0, "127.0.0.1");
    assert_eq!(ok(&["-h", "localhost"]).0, "localhost");
    assert_eq!(ok(&["--host=::1"]).0, "::1");
    assert_eq!(ok(&["--port", "8080"]).1, 8080);
    assert_eq!(ok(&["-p", "+81"]).1, 81);
    assert_eq!(ok(&["--port=9000"]).1, 9000);
    assert_eq!(ok(&["--dir", "/srv"]).2, "/srv");
    assert_eq!(ok(&["-d", "pub"]).2, "pub");
    assert_eq!(ok(&["--dir=/tmp/x"]).2, "/tmp/x");
    assert!(ok(&["--sort-dirs-first"]).3);
}

#[test]
fn later_options_win() {
    assert_eq!(
        ok(&["--host", "a", "--port", "1", "--host=b", "-p", "2", "-d", "x", "--dir", "y"]),
        ("b".to_string(), 2, "y".to_string(), false)
    );
}

#[test]
fn values_may_look_like_options() {
    assert_eq!(ok(&["--host", "--port"]).0, "--port");
    assert_eq!(ok(&["--host="]).0, "");
}

#[test]
fn missing_value_is_refused() {
    match run(&["--port"]) {
        Err(ArgError::MissingValue(a)) => assert_eq!(a, "--port"),
        _ => panic!(),
    }
    match run(&["--dir", "x", "-h"]) {
        Err(ArgError::MissingValue(a)) => assert_eq!(a, "-h"),
        _ => panic!(),
    }
}

#[test]
fn invalid_port_is_refused() {
    match run(&["--port", "http"]) {
        Err(ArgError::InvalidPort(a)) => assert_eq!(a, "http"),
        _ => panic!(),
    }
    match run(&["--port=70000"]) {
        Err(ArgError::InvalidPort(a)) => assert_eq!(a, "--port=70000"),
        _ => panic!(),
    }
}

#[test]
fn unknown_argument_is_refused() {
    match run(&["--verbose"]) {
        Err(ArgError::UnknownArgument(a)) => assert_eq!(a, "--verbose"),
        _ => panic!(),
    }
    match run(&["--sort-dirs-first", "extra"]) {
        Err(ArgError::UnknownArgument(a)) => assert_eq!(a, "extra"),
        _ => panic!(),
    }
}

#[test]
fn first_error_stops_reading() {
    match run(&["--bogus", "--port"]) {
        Err(ArgError::UnknownArgument(a)) => assert_eq!(a, "--bogus"),
        _ => panic!(),
    }
}

#[test]
fn refusals_are_reported() {
    assert_eq!(report_lines(&ArgError::MissingValue("--dir".to_string())), vec!["Missing value for --dir"]);
    assert_eq!(report_lines(&ArgError::InvalidPort("x".to_string())), vec!["Invalid port: x"]);
    assert_eq!(
        report_lines(&ArgError::UnknownArgument("-v".to_string())),
        vec![
            "Unknown argument: -v",
            "Usage: ls_web [--host HOST] [--port PORT] [--dir DIR] [--sort-dirs-first]"
        ]
    );
}
