use kame::ssh::host_config::{parse_stdout, HostConfig};
use kame::ssh::shell_cfg::{splits_at_spaces, ShellCfg};
use kame::ssh::var_map::UnexpectedLine;

const OUTPUT: &str = "\
hostname alpha.example.com
user erik
port 22
identityfile ~/.ssh/id_rsa
identityfile ~/.ssh/id_ed25519
proxycommand ssh -W %h:%p jump
";

fn owned(values: &[&str]) -> Vec<String> {
    values.iter().map(|v| (*v).to_owned()).collect()
}

#[test]
fn single_values_come_as_one_element() {
    let config = HostConfig::from_stdout(OUTPUT).expect("the output parses");
    assert_eq!(config.get("hostname"), Some(owned(&["alpha.example.com"]).as_slice()));
    assert_eq!(config.get("port"), Some(owned(&["22"]).as_slice()));
}

#[test]
fn repeated_names_accumulate_in_order() {
    let config = HostConfig::from_stdout(OUTPUT).expect("the output parses");
    assert_eq!(
        config.get("identityfile"),
        Some(owned(&["~/.ssh/id_rsa", "~/.ssh/id_ed25519"]).as_slice())
    );
}

#[test]
fn values_keep_their_spaces() {
    let config = HostConfig::from_stdout(OUTPUT).expect("the output parses");
    assert_eq!(config.get("proxycommand"), Some(owned(&["ssh -W %h:%p jump"]).as_slice()));
}

#[test]
fn absent_and_uppercase_keys_are_not_found() {
    let config = HostConfig::from_stdout(OUTPUT).expect("the output parses");
    assert_eq!(config.get("controlpath"), None);
    assert_eq!(config.get("HostName"), None);
}

#[test]
fn the_first_line_without_a_space_is_reported() {
    assert_eq!(
        parse_stdout("user erik\nbroken\nalso-broken\n").err(),
        Some(UnexpectedLine { line: 2 })
    );
    assert_eq!(parse_stdout("broken").err(), Some(UnexpectedLine { line: 1 }));
    // An empty line has no space either.
    assert_eq!(parse_stdout("user erik\n\nport 22\n").err(), Some(UnexpectedLine { line: 2 }));
}

#[test]
fn empty_output_has_no_options() {
    let config = HostConfig::from_stdout("").expect("nothing to reject");
    assert_eq!(config.get("user"), None);
}

#[test]
fn crlf_endings_are_not_part_of_values() {
    let config = HostConfig::from_stdout("user erik\r\nport 22\r\n").expect("the output parses");
    assert_eq!(config.get("user"), Some(owned(&["erik"]).as_slice()));
}

#[test]
fn an_empty_value_is_kept() {
    let config = HostConfig::from_stdout("user \n").expect("the output parses");
    assert_eq!(config.get("user"), Some(owned(&[""]).as_slice()));
}

#[test]
fn shell_cfg_reads_the_same_output() {
    assert!(splits_at_spaces(OUTPUT));
    assert!(!splits_at_spaces("user erik\nbroken\n"));
    let config = ShellCfg::from_stdout(OUTPUT);
    assert_eq!(config.get("user"), Some(owned(&["erik"]).as_slice()));
    assert_eq!(config.get("nothing"), None);
}
