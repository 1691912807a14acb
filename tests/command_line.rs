use kadnode::cli::parse_args;

fn strings(v: &[&str]) -> Vec<String> {
    v.iter().map(|s| s.to_string()).collect()
}

#[test]
fn log_dir_is_taken() {
    let a = parse_args(&strings(&["--log-dir", "/tmp/logs"]));
    assert_eq!(a.log_dir, Some("/tmp/logs".to_string()));
    assert!(a.unknown.is_empty());
}

#[test]
fn unknown_arguments_are_listed_in_order() {
    let a = parse_args(&strings(&["-v", "--log-dir", "d", "x"]));
    assert_eq!(a.log_dir, Some("d".to_string()));
    assert_eq!(a.unknown, strings(&["-v", "x"]));
}

#[test]
fn trailing_flag_clears_log_dir() {
    let a = parse_args(&strings(&["--log-dir", "d", "--log-dir"]));
    assert_eq!(a.log_dir, None);
}

#[test]
fn later_log_dir_wins() {
    let a = parse_args(&strings(&["--log-dir", "a", "--log-dir", "b"]));
    assert_eq!(a.log_dir, Some("b".to_string()));
}

#[test]
fn no_arguments() {
    let a = parse_args(&Vec::new());
    assert_eq!(a.log_dir, None);
    assert!(a.unknown.is_empty());
}
