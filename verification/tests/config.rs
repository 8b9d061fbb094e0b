use minigrep::Config;
use minigrep::ConfigError;

fn args_of(values: &[&str]) -> Vec<String> {
    values.iter().map(|v| v.to_string()).collect()
}

#[test]
fn too_few_arguments_is_a_usage_error() {
    let result = Config::new(&args_of(&["minigrep"]), false);
    assert!(matches!(result, Err(ConfigError::Usage)));

    let result = Config::new(&args_of(&["minigrep", "query"]), false);
    assert!(matches!(result, Err(ConfigError::Usage)));
}

#[test]
fn help_flag_alone_asks_for_help() {
    let result = Config::new(&args_of(&["minigrep", "-h"]), false);
    assert!(matches!(result, Err(ConfigError::Help)));
}

#[test]
fn help_flag_is_an_ordinary_query_with_enough_arguments() {
    let config = Config::new(&args_of(&["minigrep", "-h", "poem.txt"]), false).unwrap();
    assert_eq!(config.query, "-h");
    assert_eq!(config.filename, "poem.txt");
}

#[test]
fn query_and_filename_come_from_the_arguments() {
    let config = Config::new(&args_of(&["minigrep", "duct", "poem.txt"]), false).unwrap();
    assert_eq!(config.query, "duct");
    assert_eq!(config.filename, "poem.txt");
}

#[test]
fn unset_environment_defaults_to_case_sensitive() {
    let config = Config::new(&args_of(&["minigrep", "duct", "poem.txt"]), false).unwrap();
    assert!(config.case_sensitive);
}

#[test]
fn set_environment_gives_case_insensitive() {
    let config = Config::new(&args_of(&["minigrep", "duct", "poem.txt"]), true).unwrap();
    assert!(!config.case_sensitive);
}

#[test]
fn fourth_argument_c_forces_case_sensitive() {
    let config = Config::new(&args_of(&["minigrep", "duct", "poem.txt", "c"]), true).unwrap();
    assert!(config.case_sensitive);
}

#[test]
fn other_fourth_argument_defers_to_environment() {
    let config = Config::new(&args_of(&["minigrep", "duct", "poem.txt", "-c"]), false).unwrap();
    assert!(config.case_sensitive);

    let config = Config::new(&args_of(&["minigrep", "duct", "poem.txt", "x"]), false).unwrap();
    assert!(config.case_sensitive);

    let config = Config::new(&args_of(&["minigrep", "duct", "poem.txt", "x"]), true).unwrap();
    assert!(!config.case_sensitive);
}
