//! The SSH configuration that OpenSSH resolves for a given host.
//!
//! Rather than parsing `~/.ssh/config` (and its `Include`s, `Match` blocks,
//! wildcards and system-wide defaults) ourselves, we ask `ssh` itself via
//! `ssh -G <host>` and read back the fully resolved key/value pairs; what
//! `ssh` prints is read here.

use vstd::prelude::*;
use crate::ssh::var_map::{
    all_split, first_unsplit_line, has_space, lemma_options_push, options_of, space_at, UnexpectedLine,
    VarMap,
};
use crate::text::{chars_of, lemma_line_end, lines_from, read_line, string_of, text_lines};

verus! {

/// A field asked for that `ssh -G` did not report.
#[derive(Debug, Clone, PartialEq, Eq)]
pub struct MissingField {
    /// The name of the field.
    pub field: String,
}

/// The effective SSH configuration for a single host, as reported by
/// `ssh -G <host>`.
///
/// Keys are the lowercase option names printed by `ssh -G` (`hostname`,
/// `user`, `port`, `controlmaster`, ...). A key may appear more than once in
/// the output (`identityfile` and `sendenv` typically do), so every key maps
/// to a list of values in the order `ssh` printed them.
pub struct HostConfig {
    var_map: VarMap,
}

impl HostConfig {
    /// The values of each option.
    pub closed spec fn options(self) -> Map<Seq<char>, Seq<Seq<char>>> {
        self.var_map.options()
    }

    /// Reads the configuration from what `ssh -G <host>` printed.
    ///
    /// # Errors
    ///
    /// Names the first line that is not `<name> <value>`.
    pub fn from_stdout(stdout: &str) -> (r: Result<HostConfig, UnexpectedLine>)
        ensures
            match r {
                Ok(h) => all_split(text_lines(stdout@)) && h.options() == options_of(
                    text_lines(stdout@),
                ),
                Err(e) => first_unsplit_line(text_lines(stdout@), e.line as int),
            },
    {
        match parse_stdout(stdout) {
            Ok(var_map) => Ok(HostConfig { var_map }),
            Err(e) => Err(e),
        }
    }

    /// Returns the values `ssh` reported for the option `key`, or `None` if
    /// the option was not present in the output.
    ///
    /// `key` must be lowercase, matching the way `ssh -G` prints option
    /// names. Options that appear only once still yield a single-element
    /// slice.
    pub fn get(&self, key: &str) -> (r: Option<&[String]>)
        ensures
            match r {
                Some(vs) => self.options().contains_key(key@) && crate::text::views(vs@) == self.options()[key@],
                None => !self.options().contains_key(key@),
            },
    {
        self.var_map.get(key)
    }
}

/// Reads `ssh -G` output into a map from option name to its values.
///
/// Each line is expected to be `<name> <value>`, split at the first space so
/// values containing spaces stay intact. Repeated names accumulate in output
/// order. The error names the first line that fails to split.
pub fn parse_stdout(stdout: &str) -> (r: Result<VarMap, UnexpectedLine>)
    ensures
        match r {
            Ok(m) => all_split(text_lines(stdout@)) && m.options() == options_of(text_lines(stdout@)),
            Err(e) => first_unsplit_line(text_lines(stdout@), e.line as int),
        },
{
    let cs = chars_of(stdout);
    let ghost c = cs@;
    let ghost mut done: Seq<Seq<char>> = Seq::empty();
    let mut map = VarMap::new();
    let mut i: usize = 0;
    let mut num: usize = 0;
    assert(Seq::<Seq<char>>::empty() + lines_from(c, 0) =~= lines_from(c, 0));
    assert(options_of(Seq::<Seq<char>>::empty()) =~= Map::<Seq<char>, Seq<Seq<char>>>::empty());
    while i < cs.len()
        invariant
            c == cs@,
            c == stdout@,
            i <= cs.len(),
            num == done.len(),
            num <= i,
            text_lines(c) == done + lines_from(c, i as int),
            all_split(done),
            map.options() == options_of(done),
        decreases cs.len() - i,
    {
        let (line, e) = read_line(&cs, i);
        proof {
            lemma_line_end(c, i as int);
        }
        let ghost rest = if e < cs.len() { lines_from(c, e + 1) } else { Seq::<Seq<char>>::empty() };
        assert(lines_from(c, i as int) == seq![line@] + rest);
        // Split at the first space.
        let mut p: usize = 0;
        while p < line.len() && line[p] != ' '
            invariant
                p <= line.len(),
                space_at(line@, p as int) == space_at(line@, 0),
            decreases line.len() - p,
        {
            p += 1;
        }
        if p >= line.len() {
            proof {
                assert(text_lines(c)[num as int] == line@);
                assert(text_lines(c).take(num as int) =~= done);
            }
            return Err(UnexpectedLine { line: num + 1 });
        }
        let name = string_of(&line, 0, p);
        let value = string_of(&line, p + 1, line.len());
        proof {
            lemma_options_push(done, line@);
        }
        map.add(name, value);
        proof {
            assert(all_split(done.push(line@))) by {
                assert forall|j: int| 0 <= j < done.push(line@).len() implies has_space(#[trigger] done.push(line@)[j]) by {
                    if j < done.len() {
                        assert(done.push(line@)[j] == done[j]);
                    }
                }
            }
            assert(text_lines(c) =~= done.push(line@) + rest);
            done = done.push(line@);
        }
        num += 1;
        if e < cs.len() {
            i = e + 1;
        } else {
            i = e;
        }
    }
    assert(done + lines_from(c, i as int) =~= done);
    Ok(map)
}

} // verus!
