use rust_app_menu::args::{parse_args, ArgError};

fn argv(items: &[&str]) -> Vec<String> {
    items.iter().map(|s| s.to_string()).collect()
}

#[test]
fn no_arguments_ask_for_nothing() {
    let a = parse_args(&argv(&[])).ok().unwrap();
    assert!(!a.help && !a.daemon_mode && !a.show);
    assert_eq!(a.config, None);
}

#[test]
fn short_and_long_flags() {
    let a = parse_args(&argv(&["-h", "--daemon", "-s"])).ok().unwrap();
    assert!(a.help && a.daemon_mode && a.show);
    let b = parse_args(&argv(&["--help", "-d", "--show"])).ok().unwrap();
    assert!(b.help && b.daemon_mode && b.show);
}

#[test]
fn config_takes_the_next_argument() {
    let a = parse_args(&argv(&["--config", "/etc/menu.toml", "-s"])).ok().unwrap();
    assert_eq!(a.config, Some("/etc/menu.toml".to_string()));
    assert!(a.show);
    // the path is taken as it is, even when it looks like an option
    let b = parse_args(&argv(&["-c", "--daemon"])).ok().unwrap();
    assert_eq!(b.config, Some("--daemon".to_string()));
    assert!(!b.daemon_mode);
}

#[test]
fn a_later_config_overrides_an_earlier_one() {
    let a = parse_args(&argv(&["-c", "a.toml", "--config", "b.toml"])).ok().unwrap();
    assert_eq!(a.config, Some("b.toml".to_string()));
}

#[test]
fn config_without_a_path_is_refused() {
    match parse_args(&argv(&["-d", "--config"])) {
        Err(ArgError::MissingConfigPath) => {}
        _ => panic!("expected MissingConfigPath"),
    }
}

#[test]
fn an_unknown_argument_is_refused() {
    match parse_args(&argv(&["-s", "--verbose", "--bogus"])) {
        Err(ArgError::UnknownArgument(a)) => assert_eq!(a, "--verbose"),
        _ => panic!("expected UnknownArgument"),
    }
    match parse_args(&argv(&["-H"])) {
        Err(ArgError::UnknownArgument(a)) => assert_eq!(a, "-H"),
        _ => panic!("expected UnknownArgument"),
    }
}
