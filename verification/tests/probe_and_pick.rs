use std::path::PathBuf;

use kame::cli::{PickArgs, ProbeArgs};
use kame::pick::{
    choose_config_path, host_lines, hosts_to_print, picker_settings, plan_pick, NoHomeDir, PickFlag, PickPlan,
};
use kame::probe::{
    grade_latency, parse_port, pretty_name_of, probe_target, render_field, render_host, render_latency,
    props_to_show, unimplemented_flag, LabelIntensity, LatencyGrade, ProbeTargetError, UnimplementedFlag,
};
use kame::ssh::host_config::{HostConfig, MissingField};
use kame::text::decimal;

fn owned(values: &[&str]) -> Vec<String> {
    values.iter().map(|v| (*v).to_owned()).collect()
}

#[test]
fn the_first_unimplemented_flag_is_reported() {
    let args = ProbeArgs { host: "h".to_owned(), verbose: false, plain: true, json: true, no_probes: false };
    assert_eq!(unimplemented_flag(&args), Some(UnimplementedFlag::Plain));
    assert_eq!(UnimplementedFlag::Plain.message(), "--plain not implemented");
    let args = ProbeArgs { host: "h".to_owned(), ..ProbeArgs::default() };
    assert_eq!(unimplemented_flag(&args), None);
}

#[test]
fn standard_fields_come_first_and_highlights_follow() {
    let shown = props_to_show(Some(owned(&["user", "identityfile", "port", "controlpath"]).as_slice()));
    let names: Vec<&str> = shown.iter().map(|(p, _)| p.as_str()).collect();
    assert_eq!(names, ["hostname", "user", "port", "identityfile", "controlpath"]);
    let bright: Vec<bool> = shown.iter().map(|(_, i)| *i == LabelIntensity::Bright).collect();
    assert_eq!(bright, [false, true, true, true, true]);
    let shown = props_to_show(None);
    assert!(shown.iter().all(|(_, i)| *i == LabelIntensity::Normal));
    assert_eq!(shown.len(), 3);
}

#[test]
fn lines_read_the_same_with_or_without_colors() {
    colored::control::set_override(false);
    assert_eq!(render_host("prod", true), "📡 prod\n");
    assert_eq!(render_host("prod", false), "📡 prod\n");
    let config = HostConfig::from_stdout("identityfile ~/.ssh/id_rsa\nidentityfile ~/.ssh/id_ed25519\nuser erik\n")
        .expect("the output parses");
    assert_eq!(
        render_field(&config, "identityfile", LabelIntensity::Bright),
        Ok("Identity File: ~/.ssh/id_rsa,~/.ssh/id_ed25519\n".to_owned())
    );
    assert_eq!(render_field(&config, "user", LabelIntensity::Normal), Ok("User: erik\n".to_owned()));
    assert_eq!(
        render_field(&config, "port", LabelIntensity::Normal),
        Err(MissingField { field: "port".to_owned() })
    );
    assert_eq!(render_latency("Latency", 213), "Latency: 213 ms \n");

    colored::control::set_override(true);
    let line = render_host("prod", false);
    let normal = render_field(&config, "user", LabelIntensity::Normal).expect("user is reported");
    let bright = render_field(&config, "user", LabelIntensity::Bright).expect("user is reported");
    let good = render_latency("Latency", 10);
    let slow = render_latency("Latency", 1000);
    let bad = render_latency("Latency", 10000);
    colored::control::unset_override();
    assert_eq!(line, "📡 \u{1b}[1;32mprod\u{1b}[0m\n");
    // The label is painted; a normal value is not, a bright one is bold.
    assert_eq!(normal, "\u{1b}[34mUser:\u{1b}[0m erik\n");
    assert_eq!(bright, "\u{1b}[1;96mUser:\u{1b}[0m \u{1b}[1merik\u{1b}[0m\n");
    // Each grade has its own color.
    assert_eq!(good, "\u{1b}[34mLatency:\u{1b}[0m \u{1b}[32m10 ms\u{1b}[0m \n");
    assert_eq!(slow, "\u{1b}[34mLatency:\u{1b}[0m \u{1b}[33m1000 ms\u{1b}[0m \n");
    assert_eq!(bad, "\u{1b}[34mLatency:\u{1b}[0m \u{1b}[31m10000 ms\u{1b}[0m \n");
    assert_eq!(render_host("prod", true), "📡 prod\n");
}

#[test]
fn latency_grades() {
    assert_eq!(grade_latency(0), LatencyGrade::Good);
    assert_eq!(grade_latency(499), LatencyGrade::Good);
    assert_eq!(grade_latency(500), LatencyGrade::Slow);
    assert_eq!(grade_latency(4999), LatencyGrade::Slow);
    assert_eq!(grade_latency(5000), LatencyGrade::Bad);
}

#[test]
fn decimal_numbers() {
    assert_eq!(decimal(0), "0");
    assert_eq!(decimal(7), "7");
    assert_eq!(decimal(10), "10");
    assert_eq!(decimal(u128::MAX), u128::MAX.to_string());
}

#[test]
fn pick_plans() {
    let args = PickArgs { json: true, preview_cmd: Some(owned(&["x"])), ..PickArgs::default() };
    assert_eq!(plan_pick(&args), PickPlan::Unimplemented(PickFlag::Json));
    assert_eq!(PickFlag::Json.message(), "--json not implemented yet");
    let args = PickArgs { preview_cmd: Some(owned(&["x"])), ..PickArgs::default() };
    assert_eq!(plan_pick(&args), PickPlan::Unimplemented(PickFlag::PreviewCmd));
    let args = PickArgs { literal: true, query: Some("web".to_owned()), ..PickArgs::default() };
    assert_eq!(plan_pick(&args), PickPlan::Literal("web".to_owned()));
    let args = PickArgs { literal: true, ..PickArgs::default() };
    assert_eq!(plan_pick(&args), PickPlan::NoHost);
    assert_eq!(plan_pick(&PickArgs::default()), PickPlan::Interactive);
}

#[test]
fn the_alias_is_printed_when_no_field_is_asked() {
    assert_eq!(host_lines("alpha", &Vec::new(), None), Ok(owned(&["alpha"])));
}

#[test]
fn each_field_prints_its_values_in_order() {
    let config = HostConfig::from_stdout("hostname a.example.com\nidentityfile k1\nidentityfile k2\nuser erik\n")
        .expect("the output parses");
    assert_eq!(
        host_lines("alpha", &owned(&["user", "identityfile", "hostname"]), Some(&config)),
        Ok(owned(&["erik", "k1,k2", "a.example.com"]))
    );
    assert_eq!(
        host_lines("alpha", &owned(&["user", "nosuchfield", "port", "hostname"]), Some(&config)),
        Err(MissingField { field: "nosuchfield".to_owned() })
    );
}

#[test]
fn what_is_printed_after_the_picker_closes() {
    assert_eq!(hosts_to_print(true, owned(&["a"]), "q".to_owned()), None);
    assert_eq!(hosts_to_print(false, Vec::new(), "q".to_owned()), Some(owned(&["q"])));
    assert_eq!(hosts_to_print(false, owned(&["a", "b"]), "q".to_owned()), Some(owned(&["a", "b"])));
}

#[test]
fn the_config_path_is_chosen() {
    assert_eq!(
        choose_config_path(Some(PathBuf::from("/tmp/cfg")), None),
        Ok(PathBuf::from("/tmp/cfg"))
    );
    assert_eq!(
        choose_config_path(None, Some(PathBuf::from("/home/erik"))),
        Ok(PathBuf::from("/home/erik/.ssh/config"))
    );
    assert_eq!(choose_config_path(None, None), Err(NoHomeDir));
}

#[test]
fn the_picker_starts_from_the_query() {
    let settings = picker_settings(Some("prod".to_owned()), false);
    assert_eq!(settings.query, "prod");
    assert!(!settings.multi);
    assert_eq!(settings.header, "Pick a host and press Enter");
    let settings = picker_settings(None, true);
    assert_eq!(settings.query, "");
    assert!(settings.multi);
    assert_eq!(settings.header, "Pick hosts with TAB or SHIFT+TAB and press Enter");
}

#[test]
fn properties_are_shown_under_their_pretty_names() {
    assert_eq!(pretty_name_of("hostname"), "Hostname");
    assert_eq!(pretty_name_of("user"), "User");
    assert_eq!(pretty_name_of("port"), "Port");
    assert_eq!(pretty_name_of("identityfile"), "Identity File");
    assert_eq!(pretty_name_of("proxyjump"), "ProxyJump");
    assert_eq!(pretty_name_of("controlpath"), "controlpath");
}

#[test]
fn ports_are_read_like_numbers() {
    assert_eq!(parse_port("22"), Some(22));
    assert_eq!(parse_port("+2222"), Some(2222));
    assert_eq!(parse_port("4294967295"), Some(u32::MAX));
    assert_eq!(parse_port("4294967296"), None);
    assert_eq!(parse_port(""), None);
    assert_eq!(parse_port("+"), None);
    assert_eq!(parse_port("-1"), None);
    assert_eq!(parse_port("22a"), None);
    for text in ["0", "22", "+7", "65535", "99999999999", "x", " 22"] {
        assert_eq!(parse_port(text), text.parse::<u32>().ok(), "{text:?}");
    }
}

#[test]
fn a_probe_connects_to_the_first_hostname_and_port() {
    let config = HostConfig::from_stdout("hostname a.example.com\nhostname b.example.com\nport 2222\n")
        .expect("the output parses");
    assert_eq!(probe_target(&config), Ok(("a.example.com".to_owned(), 2222)));
    let config = HostConfig::from_stdout("port 22\n").expect("the output parses");
    assert_eq!(probe_target(&config), Err(ProbeTargetError::NoHostname));
    let config = HostConfig::from_stdout("hostname h\n").expect("the output parses");
    assert_eq!(probe_target(&config), Err(ProbeTargetError::NoPort));
    let config = HostConfig::from_stdout("hostname h\nport ssh\n").expect("the output parses");
    assert_eq!(probe_target(&config), Err(ProbeTargetError::BadPort("ssh".to_owned())));
}

/// The text with every escape sequence (from an escape to the next `m`) taken out.
fn unstyled(text: &str) -> String {
    let mut out = String::new();
    let mut in_sequence = false;
    for c in text.chars() {
        if in_sequence {
            in_sequence = c != 'm';
        } else if c == '\u{1b}' {
            in_sequence = true;
        } else {
            out.push(c);
        }
    }
    out
}

#[test]
fn the_intensity_of_a_line_changes_only_its_styling() {
    let config = HostConfig::from_stdout("identityfile k1\nidentityfile k2\n").expect("the output parses");
    colored::control::set_override(true);
    let normal = render_field(&config, "identityfile", LabelIntensity::Normal).expect("reported");
    let bright = render_field(&config, "identityfile", LabelIntensity::Bright).expect("reported");
    colored::control::unset_override();
    assert_ne!(normal, bright);
    assert_eq!(unstyled(&normal), "Identity File: k1,k2\n");
    assert_eq!(unstyled(&bright), unstyled(&normal));
}

#[test]
fn a_reset_inside_a_value_does_not_end_its_drawing() {
    let config = HostConfig::from_stdout("user a\u{1b}[0mb\n").expect("the output parses");
    colored::control::set_override(true);
    let bright = render_field(&config, "user", LabelIntensity::Bright).expect("reported");
    let host = render_host("x\u{1b}[0my", false);
    colored::control::unset_override();
    assert_eq!(bright, "\u{1b}[1;96mUser:\u{1b}[0m \u{1b}[1ma\u{1b}[0m\u{1b}[1mb\u{1b}[0m\n");
    assert_eq!(host, "📡 \u{1b}[1;32mx\u{1b}[0m\u{1b}[1;32my\u{1b}[0m\n");
}
