use std::collections::HashSet;

use kame::ssh::host_finder::{extract_hosts, hosts_from_config, line_alias_list};

fn set(aliases: &[&str]) -> HashSet<String> {
    aliases.iter().map(|alias| (*alias).to_owned()).collect()
}

fn found(content: &str) -> Vec<String> {
    let mut hosts = Vec::new();
    extract_hosts(&mut hosts, content);
    hosts
}

#[test]
fn aliases_come_in_order_of_first_appearance() {
    assert_eq!(found("Host charlie alpha\nHost bravo alpha\n"), ["charlie", "alpha", "bravo"]);
}

#[test]
fn hosts_already_found_keep_their_place() {
    let mut hosts = vec!["zulu".to_owned(), "alpha".to_owned()];
    extract_hosts(&mut hosts, "Host alpha yankee\n");
    assert_eq!(hosts, ["zulu", "alpha", "yankee"]);
}

#[test]
fn the_picker_list_is_sorted_and_distinct() {
    assert_eq!(
        hosts_from_config("Host delta bravo\nHost alpha delta\nHost Charlie\n"),
        ["Charlie", "alpha", "bravo", "delta"]
    );
    assert!(hosts_from_config("").is_empty());
}

#[test]
fn sorting_compares_characters_not_lengths() {
    assert_eq!(hosts_from_config("Host ab a abc b\n"), ["a", "ab", "abc", "b"]);
}

#[test]
fn an_unclosed_quote_spoils_its_line_only() {
    assert_eq!(set_of("Host alpha \"bravo\nHost charlie\n"), set(&["charlie"]));
    assert_eq!(set_of("Host 'delta\n"), set(&[]));
}

#[test]
fn an_empty_quoted_pattern_is_not_an_alias() {
    assert_eq!(set_of("Host \"\" alpha\n"), set(&["alpha"]));
    assert_eq!(set_of("Host =\n"), set(&[]));
}

#[test]
fn a_quoted_negation_is_still_a_negation() {
    assert_eq!(set_of("Host \"!alpha\" bravo\n"), set(&["bravo"]));
}

#[test]
fn a_quoted_hash_is_not_a_comment() {
    assert_eq!(set_of("Host \"#alpha\" bravo\n"), set(&["#alpha", "bravo"]));
}

#[test]
fn backslashes_escape_quotes_and_spaces() {
    assert_eq!(set_of("Host a\\ b\n"), set(&["a b"]));
    assert_eq!(set_of("Host a\\\"b\n"), set(&["a\"b"]));
    assert_eq!(set_of("Host \"a\\\"b\"\n"), set(&["a\"b"]));
    // Other backslashes stay.
    assert_eq!(set_of("Host a\\b\n"), set(&["a\\b"]));
}

#[test]
fn only_one_equals_sign_is_skipped() {
    assert_eq!(set_of("Host = =alpha\n"), set(&["=alpha"]));
    assert_eq!(set_of("Host==alpha\n"), set(&["=alpha"]));
}

#[test]
fn crlf_line_endings_are_read() {
    assert_eq!(set_of("Host alpha\r\nHost bravo\r\n"), set(&["alpha", "bravo"]));
}

#[test]
fn a_single_line_is_read_alone() {
    let line: Vec<char> = "  host=alpha bravo # charlie".chars().collect();
    assert_eq!(line_alias_list(&line), ["alpha", "bravo"]);
    let line: Vec<char> = "HostName alpha".chars().collect();
    assert!(line_alias_list(&line).is_empty());
}

#[test]
fn unquoted_aliases_are_single_words() {
    let config = "Host alpha bravo\tcharlie\nHost delta # echo\n";
    for host in found(config) {
        assert!(!host.is_empty());
        assert!(!host.contains(' ') && !host.contains('\t'));
        assert!(!host.starts_with('#') && !host.starts_with('!'));
        assert!(!host.contains('*') && !host.contains('?'));
    }
}

fn set_of(content: &str) -> HashSet<String> {
    found(content).into_iter().collect()
}

#[test]
fn a_carriage_return_ending_the_last_line_is_not_part_of_an_alias() {
    assert_eq!(found("Host x\r"), ["x"]);
    assert_eq!(found("Host x\r\n"), ["x"]);
    assert_eq!(found("Host alpha\r\nHost bravo charlie\r"), ["alpha", "bravo", "charlie"]);
}

#[test]
fn lines_joined_by_a_newline_declare_the_aliases_of_each() {
    let a = "Host alpha bravo\r";
    let b = "Host charlie\nHost alpha";
    let mut both = found(a);
    both.extend(found(b));
    assert_eq!(found(&format!("{a}\n{b}")), both.into_iter().fold(Vec::new(), |mut v: Vec<String>, h| {
        if !v.contains(&h) {
            v.push(h);
        }
        v
    }));
    assert_eq!(found(&format!("{a}\n{b}")), ["alpha", "bravo", "charlie"]);
}

#[test]
fn any_whitespace_separates_patterns() {
    assert_eq!(found("Host\u{c}alpha\u{a0}bravo\u{3000}charlie\u{b}\n"), ["alpha", "bravo", "charlie"]);
    assert_eq!(found("\u{2003}Host\u{85}delta\n"), ["delta"]);
}
