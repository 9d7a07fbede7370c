use std::path::PathBuf;

use clap::builder::styling::{Ansi256Color, Style};

use kame::cli::{
    classify_subcommand, collect_fields, forced_colors, from_matches, order_requests, pick_args, pick_examples,
    pick_examples_table,
    probe_args, Cli, CliError, ColorChoice, PickArgs, PickMatches, ProbeArgs, ProbeMatches,
    Subcommand, SubcommandMatches, SubcommandName,
};

fn no_flags() -> PickMatches {
    PickMatches {
        query: None,
        field_values: Vec::new(),
        hostname_at: Vec::new(),
        user_at: Vec::new(),
        port_at: Vec::new(),
        control_path_at: Vec::new(),
        multi: false,
        config: None,
        literal: false,
        json: false,
        preview_cmd: None,
    }
}

fn values(entries: &[(usize, &str)]) -> Vec<(usize, String)> {
    entries.iter().map(|(i, v)| (*i, (*v).to_owned())).collect()
}

#[test]
fn pick_defaults_are_empty() {
    // kame pick
    assert_eq!(pick_args(no_flags()), PickArgs::default());
}

#[test]
fn field_flags_keep_command_line_order() {
    // kame pick -u -i
    let m = PickMatches { user_at: vec![2], hostname_at: vec![3], ..no_flags() };
    assert_eq!(pick_args(m).fields, ["user", "hostname"]);
    // kame pick -i -u
    let m = PickMatches { hostname_at: vec![2], user_at: vec![3], ..no_flags() };
    assert_eq!(pick_args(m).fields, ["hostname", "user"]);
    // kame pick -p -f identityfile -c
    let m = PickMatches {
        port_at: vec![2],
        field_values: values(&[(4, "identityfile")]),
        control_path_at: vec![5],
        ..no_flags()
    };
    assert_eq!(pick_args(m).fields, ["port", "identityfile", "controlpath"]);
    // kame pick -cu: each short flag of a cluster gets its own position
    let m = PickMatches { control_path_at: vec![2], user_at: vec![3], ..no_flags() };
    assert_eq!(pick_args(m).fields, ["controlpath", "user"]);
}

#[test]
fn a_repeated_flag_counts_where_it_first_appears() {
    // kame pick -u -i -u
    let m = PickMatches { user_at: vec![4, 2], hostname_at: vec![3], ..no_flags() };
    assert_eq!(collect_fields(&m), ["user", "hostname"]);
}

#[test]
fn field_names_are_lowercased_and_deduplicated() {
    let m = PickMatches { field_values: values(&[(3, "HostName")]), ..no_flags() };
    assert_eq!(collect_fields(&m), ["hostname"]);
    // kame pick -i -f hostname
    let m = PickMatches { hostname_at: vec![2], field_values: values(&[(4, "hostname")]), ..no_flags() };
    assert_eq!(collect_fields(&m), ["hostname"]);
    // kame pick -f user -f USER -i
    let m = PickMatches {
        field_values: values(&[(3, "user"), (5, "USER")]),
        hostname_at: vec![6],
        ..no_flags()
    };
    assert_eq!(collect_fields(&m), ["user", "hostname"]);
}

#[test]
fn a_later_value_does_not_move_an_earlier_field() {
    // kame pick -f user -i -f USER
    let m = PickMatches {
        field_values: values(&[(3, "user"), (6, "USER")]),
        hostname_at: vec![4],
        ..no_flags()
    };
    assert_eq!(collect_fields(&m), ["user", "hostname"]);
    // A flag given before a value of the same field keeps its place.
    let m = PickMatches {
        field_values: values(&[(5, "HOSTNAME")]),
        hostname_at: vec![2],
        user_at: vec![3],
        ..no_flags()
    };
    assert_eq!(collect_fields(&m), ["hostname", "user"]);
}

#[test]
fn requests_at_the_same_position_keep_their_listing_order() {
    let entries = values(&[(1, "b"), (1, "a"), (0, "c"), (1, "b")]);
    assert_eq!(order_requests(&entries), ["c", "b", "a"]);
}

#[test]
fn literal_implies_hostname_unless_a_field_is_given() {
    // kame pick -L web
    let args = pick_args(PickMatches { literal: true, query: Some("web".to_owned()), ..no_flags() });
    assert!(args.literal);
    assert_eq!(args.query.as_deref(), Some("web"));
    assert_eq!(args.fields, ["hostname"]);
    // kame pick -L -u web
    let m = PickMatches { literal: true, user_at: vec![3], query: Some("web".to_owned()), ..no_flags() };
    assert_eq!(pick_args(m).fields, ["user"]);
    // kame pick -L -f identityfile 'web-*'
    let m = PickMatches {
        literal: true,
        field_values: values(&[(4, "identityfile")]),
        query: Some("web-*".to_owned()),
        ..no_flags()
    };
    assert_eq!(pick_args(m).fields, ["identityfile"]);
}

#[test]
fn without_literal_no_field_means_none() {
    assert!(pick_args(PickMatches { query: Some("prod".to_owned()), ..no_flags() }).fields.is_empty());
}

fn owned(items: &[&str]) -> Vec<String> {
    items.iter().map(|s| (*s).to_owned()).collect()
}

#[test]
fn preview_cmd_swallows_everything_after_it() {
    // kame pick prod --preview-cmd cowsay -s {}
    let args = pick_args(PickMatches {
        query: Some("prod".to_owned()),
        preview_cmd: Some(owned(&["cowsay", "-s", "{}"])),
        ..no_flags()
    });
    assert_eq!(args.query.as_deref(), Some("prod"));
    assert_eq!(args.preview_cmd.as_deref(), Some(["cowsay", "-s", "{}"].map(str::to_owned).as_slice()));
    // kame pick --preview-cmd ssh -G {}
    let args = pick_args(PickMatches { preview_cmd: Some(owned(&["ssh", "-G", "{}"])), ..no_flags() });
    assert_eq!(args.preview_cmd.as_deref(), Some(["ssh", "-G", "{}"].map(str::to_owned).as_slice()));
}

#[test]
fn pick_remaining_flags() {
    // kame pick -m --json -F /tmp/cfg
    let args = pick_args(PickMatches {
        multi: true,
        json: true,
        config: Some(PathBuf::from("/tmp/cfg")),
        ..no_flags()
    });
    assert!(args.multi);
    assert!(args.json);
    assert_eq!(args.config, Some(PathBuf::from("/tmp/cfg")));
}

#[test]
fn probe_flags() {
    // kame probe -v -N --json host
    let args = probe_args(ProbeMatches {
        host: Some("host".to_owned()),
        verbose: true,
        plain: false,
        json: true,
        no_probes: true,
    });
    assert!(args.verbose);
    assert!(args.no_probes);
    assert!(args.json);
    assert!(!args.plain);
}

#[test]
fn probe_arguments_pass_through() {
    let args = probe_args(ProbeMatches {
        host: Some("prod-server".to_owned()),
        verbose: true,
        plain: false,
        json: true,
        no_probes: true,
    });
    assert_eq!(
        args,
        ProbeArgs { host: "prod-server".to_owned(), verbose: true, plain: false, json: true, no_probes: true }
    );
    let args = probe_args(ProbeMatches { host: None, verbose: false, plain: false, json: false, no_probes: false });
    assert_eq!(args.host, "");
}

#[test]
fn subcommands_are_recognized_by_name() {
    assert_eq!(classify_subcommand("pick"), SubcommandName::Pick);
    assert_eq!(classify_subcommand("probe"), SubcommandName::Probe);
    assert_eq!(classify_subcommand("p"), SubcommandName::Unknown);
    assert_eq!(classify_subcommand("Pick"), SubcommandName::Unknown);
}

#[test]
fn an_invocation_needs_a_known_subcommand() {
    assert_eq!(from_matches(Some(ColorChoice::Never), None), Err(CliError::MissingSubcommand));
    assert_eq!(
        from_matches(None, Some(SubcommandMatches::Unknown("help".to_owned()))),
        Err(CliError::UnknownSubcommand("help".to_owned()))
    );
}

#[test]
fn color_defaults_to_auto() {
    let cli = from_matches(None, Some(SubcommandMatches::Pick(no_flags()))).expect("pick is known");
    assert_eq!(cli, Cli { color: ColorChoice::Auto, command: Subcommand::Pick(PickArgs::default()) });
    let cli = from_matches(
        Some(ColorChoice::Always),
        Some(SubcommandMatches::Probe(ProbeMatches {
            host: Some("host".to_owned()),
            verbose: false,
            plain: false,
            json: false,
            no_probes: false,
        })),
    )
    .expect("probe is known");
    assert_eq!(cli.color, ColorChoice::Always);
    assert!(matches!(cli.command, Subcommand::Probe(ProbeArgs { ref host, .. }) if host == "host"));
}

/// The help's header and literal styles, as the application sets them up.
fn help_styles() -> (Style, Style) {
    let header = Style::new().fg_color(Some(Ansi256Color(64).into())).bold();
    let literal = Style::new().fg_color(Some(Ansi256Color(178).into()));
    (header, literal)
}

#[test]
fn examples_use_the_same_styles_as_the_rest_of_the_help() {
    let (header, literal) = help_styles();
    let block = pick_examples(
        &format!("{header}"),
        &format!("{header:#}"),
        &format!("{literal}"),
        &format!("{literal:#}"),
    );
    assert!(
        block.contains(&format!("{header}Examples:{header:#}")),
        "the Examples heading should use the same style as Options:/Arguments:"
    );
    assert!(
        block.contains(&format!("{literal}ssh $(kame pick){literal:#}")),
        "example commands should use the same style as flag names"
    );
}

#[test]
fn examples_strip_cleanly_when_color_is_off() {
    let plain = pick_examples("", "", "", "");
    assert!(!plain.contains('\u{1b}'), "no escape should survive into uncolored help");
    assert!(plain.contains("Examples:"));
}

#[test]
fn example_descriptions_share_a_column() {
    let plain = pick_examples("", "", "", "");
    let table = pick_examples_table();
    let width = table.iter().map(|(command, _)| command.chars().count()).max().expect("there is at least one example");
    for (command, description) in table {
        let mut lines = description.lines();
        let first = lines.next().expect("a description is never empty");
        let padding = width - command.chars().count();
        let row = format!("  {command}{:padding$}  {first}", "");
        assert!(plain.lines().any(|line| line == row), "missing example row: {row:?}");
        let indent = 2 + width + 2;
        for rest in lines {
            let row = format!("{:indent$}{rest}", "");
            assert!(plain.lines().any(|line| line == row), "misaligned continuation line: {row:?}");
        }
    }
}

#[test]
fn examples_share_a_column() {
    let block = pick_examples("", "", "", "");
    let mut lines = block.lines();
    assert_eq!(lines.next(), Some("Examples:"));
    assert_eq!(lines.next(), Some("  ssh $(kame pick)                      Pick a host and connect to it with SSH"));
    assert_eq!(
        lines.next(),
        Some("  ssh -J proxy $(kame pick prod)        Pick a host and connect to it through a proxy. Starts fuzzy search with \"prod\"")
    );
    assert_eq!(block.lines().count(), 9);
    assert!(block.ends_with("  kame pick --preview-cmd cowsay -s {}  Pick a host with a funny preview (calls `cowsay -s {}`)"));
}

#[test]
fn examples_are_styled_with_what_is_given() {
    let block = pick_examples("<h>", "</h>", "<l>", "</l>");
    assert!(block.starts_with("<h>Examples:</h>\n  <l>ssh $(kame pick)</l>"));
}

#[test]
fn color_choices_force_colors_or_leave_them() {
    assert_eq!(forced_colors(ColorChoice::Auto), None);
    assert_eq!(forced_colors(ColorChoice::Always), Some(true));
    assert_eq!(forced_colors(ColorChoice::Never), Some(false));
}
