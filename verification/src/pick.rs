//! The decisions of `kame pick`: what to do with its arguments, which hosts
//! to print after the picker closes, and what to print for each.
//!
//! Running the picker and `ssh -G` is the program's part.

use std::path::PathBuf;

use vstd::prelude::*;
use crate::cli::PickArgs;
use crate::ssh::host_config::{HostConfig, MissingField};
use crate::text::{comma_free, join_commas, join_with_commas, lemma_split_join_commas, split_commas, views};

verus! {

/// A flag of `kame pick` that is documented but not implemented yet.
#[derive(Debug, Clone, Copy, PartialEq, Eq)]
pub enum PickFlag {
    Json,
    PreviewCmd,
}

impl PickFlag {
    /// The error reported for this flag.
    pub fn message(self) -> (r: &'static str)
        ensures
            r@ == match self {
                PickFlag::Json => "--json not implemented yet"@,
                PickFlag::PreviewCmd => "--preview-cmd not implemented yet"@,
            },
    {
        match self {
            PickFlag::Json => "--json not implemented yet",
            PickFlag::PreviewCmd => "--preview-cmd not implemented yet",
        }
    }
}

/// What `kame pick` does with its arguments.
#[derive(Debug, Clone, PartialEq, Eq)]
pub enum PickPlan {
    /// Refuse a flag that is not implemented yet.
    Unimplemented(PickFlag),
    /// `-L`: skip the picker and print for this host directly.
    Literal(String),
    /// `-L` with no host: report it and exit with status 1.
    NoHost,
    /// Run the fuzzy picker over the aliases of the config file.
    Interactive,
}

/// Decides what `kame pick` does: `--json`, then `--preview-cmd`, are
/// refused first; `-L` prints for the query directly, or fails without one;
/// otherwise the picker runs.
pub fn plan_pick(args: &PickArgs) -> (r: PickPlan)
    ensures
        r == if args.json {
            PickPlan::Unimplemented(PickFlag::Json)
        } else if args.preview_cmd is Some {
            PickPlan::Unimplemented(PickFlag::PreviewCmd)
        } else if args.literal {
            match args.query {
                Some(h) => PickPlan::Literal(h),
                None => PickPlan::NoHost,
            }
        } else {
            PickPlan::Interactive
        },
{
    if args.json {
        PickPlan::Unimplemented(PickFlag::Json)
    } else if args.preview_cmd.is_some() {
        PickPlan::Unimplemented(PickFlag::PreviewCmd)
    } else if args.literal {
        match &args.query {
            Some(h) => PickPlan::Literal(h.clone()),
            None => PickPlan::NoHost,
        }
    } else {
        PickPlan::Interactive
    }
}

/// The lines printed for the requested fields: one per field, in the order
/// of the fields, holding its values joined with commas.
pub open spec fn field_lines(options: Map<Seq<char>, Seq<Seq<char>>>, fields: Seq<Seq<char>>) -> Seq<Seq<char>> {
    fields.map_values(|f: Seq<char>| join_commas(options[f]))
}

/// One line per field, and each field's line carries every value reported
/// for it, in order: split at its commas, it gives those values back (when
/// none of them holds a comma).
pub proof fn lemma_field_lines_carry_every_value(
    options: Map<Seq<char>, Seq<Seq<char>>>,
    fields: Seq<Seq<char>>,
    k: int,
)
    requires
        0 <= k < fields.len(),
        options.contains_key(fields[k]),
        options[fields[k]].len() > 0,
        forall|j: int| 0 <= j < options[fields[k]].len() ==> comma_free(#[trigger] options[fields[k]][j]),
    ensures
        field_lines(options, fields).len() == fields.len(),
        split_commas(field_lines(options, fields)[k]) == options[fields[k]],
{
    lemma_split_join_commas(options[fields[k]]);
}

/// Every field of `fields` is reported.
pub open spec fn all_reported(options: Map<Seq<char>, Seq<Seq<char>>>, fields: Seq<Seq<char>>) -> bool {
    forall|k: int| 0 <= k < fields.len() ==> options.contains_key(#[trigger] fields[k])
}

/// Field `k` is the first of `fields` that is not reported.
pub open spec fn first_unreported(
    options: Map<Seq<char>, Seq<Seq<char>>>,
    fields: Seq<Seq<char>>,
    k: int,
) -> bool {
    &&& 0 <= k < fields.len()
    &&& !options.contains_key(fields[k])
    &&& all_reported(options, fields.take(k))
}

/// The lines printed for one host: the host itself when no field was
/// requested, else the lines of its fields.
pub open spec fn host_output(
    host: Seq<char>,
    fields: Seq<Seq<char>>,
    options: Map<Seq<char>, Seq<Seq<char>>>,
) -> Seq<Seq<char>> {
    if fields.len() == 0 {
        seq![host]
    } else {
        field_lines(options, fields)
    }
}

/// The lines to print for `host`. `config` is its resolved configuration;
/// it is only read when fields are requested. A requested field that the
/// configuration does not report is an error naming the first such field.
pub fn host_lines(host: &str, fields: &Vec<String>, config: Option<&HostConfig>) -> (r: Result<
    Vec<String>,
    MissingField,
>)
    requires
        fields.len() > 0 ==> config is Some,
    ensures
        fields.len() == 0 ==> (r matches Ok(v) && views(v@) == seq![host@]),
        fields.len() > 0 ==> match r {
            Ok(v) => all_reported(config->0.options(), views(fields@)) && views(v@) == host_output(
                host@,
                views(fields@),
                config->0.options(),
            ),
            Err(e) => exists|k: int|
                first_unreported(config->0.options(), views(fields@), k) && e.field@ == views(fields@)[k],
        },
{
    let mut r: Vec<String> = Vec::new();
    if fields.len() == 0 {
        r.push(host.to_owned());
        assert(views(r@) =~= seq![host@]);
        return Ok(r);
    }
    let c = config.unwrap();
    assert(config == Some(c));
    let ghost fs = views(fields@);
    let mut i: usize = 0;
    assert(views(r@) =~= field_lines(c.options(), fs.take(0)));
    while i < fields.len()
        invariant
            i <= fields.len(),
            config == Some(c),
            fs == views(fields@),
            all_reported(c.options(), fs.take(i as int)),
            views(r@) == field_lines(c.options(), fs.take(i as int)),
        decreases fields.len() - i,
    {
        assert(fs[i as int] == fields@[i as int]@);
        match c.get(fields[i].as_str()) {
            Some(vs) => {
                let ghost before = views(r@);
                let line = join_with_commas(vs);
                assert(line@ == join_commas(c.options()[fs[i as int]]));
                r.push(line);
                assert(views(r@) =~= before.push(line@));
                assert(fs.take(i + 1) =~= fs.take(i as int).push(fs[i as int]));
                assert(views(r@) =~= field_lines(c.options(), fs.take(i + 1)));
                assert(all_reported(c.options(), fs.take(i + 1))) by {
                    assert forall|k: int| 0 <= k < fs.take(i + 1).len() implies c.options().contains_key(
                        #[trigger] fs.take(i + 1)[k],
                    ) by {
                        if k < i {
                            assert(fs.take(i + 1)[k] == fs.take(i as int)[k]);
                        }
                    }
                }
            },
            None => {
                assert(first_unreported(c.options(), fs, i as int));
                let missing = MissingField { field: fields[i].clone() };
                assert(missing.field@ == fs[i as int]);
                assert(first_unreported(config->0.options(), views(fields@), i as int) && missing.field@ == views(
                    fields@,
                )[i as int]);
                return Err(missing);
            },
        }
        i += 1;
    }
    assert(fs.take(i as int) =~= fs);
    Ok(r)
}

/// The hosts to print once the picker has closed: `None` when it was
/// aborted; the typed query when nothing was selected; else the selection.
pub fn hosts_to_print(is_abort: bool, selected: Vec<String>, query: String) -> (r: Option<Vec<String>>)
    ensures
        is_abort ==> r is None,
        !is_abort && selected.len() == 0 ==> (r matches Some(v) && v@ == seq![query]),
        !is_abort && selected.len() > 0 ==> r == Some(selected),
{
    if is_abort {
        None
    } else if selected.len() == 0 {
        let mut v: Vec<String> = Vec::new();
        v.push(query);
        assert(v@ =~= seq![query]);
        Some(v)
    } else {
        Some(selected)
    }
}

/// What the fuzzy picker starts with.
pub struct PickerSettings {
    /// The text the query starts with.
    pub query: String,
    /// Whether several hosts may be picked.
    pub multi: bool,
    /// The line shown above the list.
    pub header: &'static str,
}

/// The picker's settings: it starts from the given query (empty when there
/// is none), lets several hosts be picked with `-m`, and says how to pick.
pub fn picker_settings(query: Option<String>, multi: bool) -> (r: PickerSettings)
    ensures
        r.query@ == (match query {
            Some(q) => q@,
            None => Seq::<char>::empty(),
        }),
        r.multi == multi,
        r.header@ == (if multi {
            "Pick hosts with TAB or SHIFT+TAB and press Enter"@
        } else {
            "Pick a host and press Enter"@
        }),
{
    let query = match query {
        Some(q) => q,
        None => String::new(),
    };
    let header = if multi {
        "Pick hosts with TAB or SHIFT+TAB and press Enter"
    } else {
        "Pick a host and press Enter"
    };
    PickerSettings { query, multi, header }
}

/// There is no home directory to find `~/.ssh/config` in.
#[derive(Debug, Clone, Copy, PartialEq, Eq)]
pub struct NoHomeDir;

/// What `std::path::Path::join` builds from a directory and `.ssh/config`.
pub uninterp spec fn ssh_config_under(home: PathBuf) -> PathBuf;

/// `<home>/.ssh/config`, through `std::path::Path::join`. The path it
/// builds depends on `home` alone and is named `ssh_config_under(home)`; a
/// path is opaque here, so what it holds is not stated.
#[verifier::external_body]
fn ssh_config_in(home: &PathBuf) -> (r: PathBuf)
    ensures
        r == ssh_config_under(*home),
{
    home.join(".ssh/config")
}

/// The config file to read aliases from: the one given with `-F`, else
/// `.ssh/config` under the home directory, if there is one.
pub fn choose_config_path(config: Option<PathBuf>, home: Option<PathBuf>) -> (r: Result<PathBuf, NoHomeDir>)
    ensures
        config matches Some(p) ==> r == Ok::<PathBuf, NoHomeDir>(p),
        config is None ==> match home {
            Some(h) => r == Ok::<PathBuf, NoHomeDir>(ssh_config_under(h)),
            None => r == Err::<PathBuf, NoHomeDir>(NoHomeDir),
        },
{
    match config {
        Some(p) => Ok(p),
        None => match home {
            Some(h) => Ok(ssh_config_in(&h)),
            None => Err(NoHomeDir),
        },
    }
}

} // verus!
