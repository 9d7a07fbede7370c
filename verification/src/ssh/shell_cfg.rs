//! A reader of `ssh -G` output that takes every line to be
//! `<name> <value>` and leaves any other output to its caller.

use vstd::prelude::*;
use crate::ssh::host_config::parse_stdout as read_options;
use crate::ssh::var_map::{all_split, first_unsplit_line, options_of, VarMap};
use crate::text::{text_lines, views};

verus! {

/// The SSH configuration of one host, as `ssh -G` printed it.
pub struct ShellCfg {
    var_map: VarMap,
}

/// Every line of `stdout` is `<name> <value>`.
pub fn splits_at_spaces(stdout: &str) -> (r: bool)
    ensures
        r == all_split(text_lines(stdout@)),
{
    match read_options(stdout) {
        Ok(_) => true,
        Err(e) => {
            assert(!all_split(text_lines(stdout@))) by {
                let ls = text_lines(stdout@);
                assert(first_unsplit_line(ls, e.line as int));
                assert(!crate::ssh::var_map::has_space(ls[e.line - 1]));
            }
            false
        },
    }
}

/// Reads `ssh -G` output into a map from option name to its values; every
/// line must split at a space.
fn parse_stdout(stdout: &str) -> (r: VarMap)
    requires
        all_split(text_lines(stdout@)),
    ensures
        r.options() == options_of(text_lines(stdout@)),
{
    match read_options(stdout) {
        Ok(m) => m,
        Err(e) => {
            proof {
                let ls = text_lines(stdout@);
                assert(crate::ssh::var_map::has_space(ls[e.line - 1]));
            }
            VarMap::new()
        },
    }
}

impl ShellCfg {
    /// The values of each option.
    pub closed spec fn options(self) -> Map<Seq<char>, Seq<Seq<char>>> {
        self.var_map.options()
    }

    /// Reads the configuration from what `ssh -G <host>` printed, every line
    /// of which is `<name> <value>`.
    pub fn from_stdout(stdout: &str) -> (r: ShellCfg)
        requires
            all_split(text_lines(stdout@)),
        ensures
                r.options() == options_of(text_lines(stdout@)),
    {
        ShellCfg { var_map: parse_stdout(stdout) }
    }

    /// The values reported for the option `key`, or `None` if it was not
    /// reported.
    pub fn get(&self, key: &str) -> (r: Option<&[String]>)
        ensures
            match r {
                Some(vs) => self.options().contains_key(key@) && views(vs@) == self.options()[key@],
                None => !self.options().contains_key(key@),
            },
    {
        self.var_map.get(key)
    }
}

} // verus!
