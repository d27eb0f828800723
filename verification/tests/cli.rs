use zappy::config::{CliRequest, Config, ConfigError, Flag};

fn args(list: &[&str]) -> Vec<String> {
    list.iter().map(|s| s.to_string()).collect()
}

fn run(list: &[&str]) -> Config {
    match Config::parse(&args(list)) {
        Ok(CliRequest::Run(c)) => c,
        other => panic!("expected settings, got {other:?}"),
    }
}

#[test]
fn empty_command_line_gives_defaults() {
    let c = run(&[]);
    assert_eq!(c.port, 4242);
    assert_eq!(c.clients, 10);
    assert_eq!(c.names, vec!["GRAPHICAL".to_string()]);
    assert_eq!(c.frequency, 100);
    assert_eq!((c.x, c.y), (10, 10));
}

#[test]
fn every_option_is_read() {
    let c = run(&["-p", "8080", "-x", "12", "-y", "7", "-n", "red", "blue", "-c", "3", "-f", "50"]);
    assert_eq!(c.port, 8080);
    assert_eq!((c.x, c.y), (12, 7));
    assert_eq!(c.names, vec!["red".to_string(), "blue".to_string()]);
    assert_eq!(c.clients, 3);
    assert_eq!(c.frequency, 50);
}

#[test]
fn names_option_without_names_keeps_default() {
    let c = run(&["-n", "-p", "1"]);
    assert_eq!(c.names, vec!["GRAPHICAL".to_string()]);
    assert_eq!(c.port, 1);
}

#[test]
fn later_option_wins() {
    assert_eq!(run(&["-p", "1", "-p", "2"]).port, 2);
}

#[test]
fn help_is_a_request() {
    assert!(matches!(Config::parse(&args(&["-p", "1", "-h", "junk"])), Ok(CliRequest::Help)));
}

#[test]
fn missing_value_is_reported() {
    assert!(matches!(
        Config::parse(&args(&["-x", "4", "-f"])),
        Err(ConfigError::MissingValue(Flag::Frequency))
    ));
}

#[test]
fn invalid_values_are_reported() {
    assert!(matches!(
        Config::parse(&args(&["-p", "70000"])),
        Err(ConfigError::InvalidValue(Flag::Port))
    ));
    assert!(matches!(
        Config::parse(&args(&["-c", "ten"])),
        Err(ConfigError::InvalidValue(Flag::Clients))
    ));
    assert!(matches!(
        Config::parse(&args(&["-y", "-3"])),
        Err(ConfigError::InvalidValue(Flag::Height))
    ));
}

#[test]
fn stray_argument_is_reported_with_its_position() {
    assert!(matches!(
        Config::parse(&args(&["-p", "1", "oops"])),
        Err(ConfigError::UnexpectedArgument(2))
    ));
}
