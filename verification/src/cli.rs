//! The command line of `kame`, once parsed.
//!
//! Splitting argv into flags and values is clap's work; what clap hands back
//! arrives here as plain values ([`PickMatches`], [`ProbeMatches`]) and is
//! normalized into a [`Cli`]:
//!
//! - `-i`/`-u`/`-p`/`-c` are folded into [`PickArgs::fields`], in the order
//!   the user wrote them on the command line and interleaved with
//!   `-f/--field`;
//! - field names are lowercased (matching `ssh -G` output keys) and
//!   duplicates are dropped, keeping the first position;
//! - `-L/--literal` implies `hostname` when no other field was requested.

use std::path::PathBuf;

use vstd::prelude::*;
use crate::text::{chars_of, lowercase_of, push_char, push_text, same_text, to_lowercase, views};

verus! {

/// `std::path::PathBuf`, carried through unread.
#[verifier::external_type_specification]
#[verifier::external_body]
pub struct ExPathBuf(PathBuf);

/// When to colorize output, from `--color <WHEN>`.
#[derive(Debug, Clone, Copy, PartialEq, Eq, Default)]
pub enum ColorChoice {
    /// Colorize only when stdout is a terminal.
    #[default]
    Auto,
    /// Always colorize, even when piped.
    Always,
    /// Never colorize.
    Never,
}

/// A fully parsed and normalized `kame` invocation.
#[derive(Debug, Clone, PartialEq, Eq)]
pub struct Cli {
    /// Value of the global `--color <WHEN>` flag.
    pub color: ColorChoice,
    /// The subcommand to run, with its own arguments.
    pub command: Subcommand,
}

/// The subcommand the user asked for.
#[derive(Debug, Clone, PartialEq, Eq)]
pub enum Subcommand {
    /// `kame pick`: fuzzily pick a host from the SSH config.
    Pick(PickArgs),
    /// `kame probe`: probe a single host and report on it.
    Probe(ProbeArgs),
}

/// Arguments of `kame pick`.
#[derive(Debug, Clone, PartialEq, Eq, Default)]
pub struct PickArgs {
    /// Optional text to seed the fuzzy query with, or the literal pattern
    /// when `literal` is set.
    pub query: Option<String>,
    /// Fields to resolve and print, lowercased, deduplicated and in the order
    /// given on the command line. Empty means "print the alias itself".
    pub fields: Vec<String>,
    /// `-m/--multi`: allow picking several hosts.
    pub multi: bool,
    /// `-F/--config`: search this file instead of `~/.ssh/config`.
    pub config: Option<PathBuf>,
    /// `-L/--literal`: skip the fuzzy search and pass `query` to `ssh -G`.
    pub literal: bool,
    /// `--json`: print a JSON object (or array with `--multi`).
    pub json: bool,
    /// `--preview-cmd`: the command and arguments overriding the default
    /// preview. `{}` is a placeholder for the SSH alias.
    pub preview_cmd: Option<Vec<String>>,
}

/// Arguments of `kame probe`.
#[derive(Debug, Clone, PartialEq, Eq, Default)]
pub struct ProbeArgs {
    /// The SSH host (or config alias) to probe.
    pub host: String,
    /// `-v/--verbose`: show detailed diagnostics.
    pub verbose: bool,
    /// `-p/--plain`: plain text output, no colors or decorations.
    pub plain: bool,
    /// `--json`: print a JSON object. Mutually exclusive with `plain`.
    pub json: bool,
    /// `-N/--no-probes`: only report what `ssh -G` says, run no network
    /// probes.
    pub no_probes: bool,
}

/// What the argument parser found for `kame pick`, before normalization.
///
/// Each flag that stands for a field comes with the argv positions at which
/// it was given (empty when it was not given at all); each `-f/--field` value
/// comes with its own position.
pub struct PickMatches {
    pub query: Option<String>,
    /// `-f/--field` values, each with its position on the command line.
    pub field_values: Vec<(usize, String)>,
    /// Positions of `-i/--hostname`.
    pub hostname_at: Vec<usize>,
    /// Positions of `-u/--user`.
    pub user_at: Vec<usize>,
    /// Positions of `-p/--port`.
    pub port_at: Vec<usize>,
    /// Positions of `-c/--control-path`.
    pub control_path_at: Vec<usize>,
    pub multi: bool,
    pub config: Option<PathBuf>,
    pub literal: bool,
    pub json: bool,
    pub preview_cmd: Option<Vec<String>>,
}

/// What the argument parser found for `kame probe`.
pub struct ProbeMatches {
    pub host: Option<String>,
    pub verbose: bool,
    pub plain: bool,
    pub json: bool,
    pub no_probes: bool,
}

/// The subcommand the parser matched, with what it found for it.
pub enum SubcommandMatches {
    Pick(PickMatches),
    Probe(ProbeMatches),
    /// A subcommand of another name.
    Unknown(String),
}

/// Why parsed arguments do not make an invocation.
#[derive(Debug, Clone, PartialEq, Eq)]
pub enum CliError {
    /// No subcommand was given: the help is shown instead.
    MissingSubcommand,
    /// A subcommand this program does not have.
    UnknownSubcommand(String),
}

/// Which subcommand a name designates.
#[derive(Debug, Clone, Copy, PartialEq, Eq)]
pub enum SubcommandName {
    Pick,
    Probe,
    Unknown,
}

// ---------------------------------------------------------------------------
// The order of requested fields.
// ---------------------------------------------------------------------------

/// The positions and names of a list of field requests.
pub open spec fn request_views(v: Seq<(usize, String)>) -> Seq<(usize, Seq<char>)> {
    v.map_values(|e: (usize, String)| (e.0, e.1@))
}

/// Request `p` of `s` was made before request `q`: at an earlier position on
/// the command line, or at the same position and listed first.
pub open spec fn asks_before(s: Seq<(usize, Seq<char>)>, p: int, q: int) -> bool {
    s[p].0 < s[q].0 || (s[p].0 == s[q].0 && p < q)
}

/// Request `p` is the first of `s` that asks for its field.
pub open spec fn first_request(s: Seq<(usize, Seq<char>)>, p: int) -> bool {
    &&& 0 <= p < s.len()
    &&& forall|q: int|
        0 <= q < s.len() && q != p && #[trigger] s[q].1 == s[p].1 ==> asks_before(s, p, q)
}

/// Some request of `s` asks for `n`.
pub open spec fn is_requested(s: Seq<(usize, Seq<char>)>, n: Seq<char>) -> bool {
    exists|p: int| 0 <= p < s.len() && #[trigger] s[p].1 == n
}

/// `r` lists every field that `s` requests, each once, in the order in which
/// each field was first requested.
pub open spec fn in_request_order(s: Seq<(usize, Seq<char>)>, r: Seq<Seq<char>>) -> bool {
    &&& r.no_duplicates()
    &&& forall|n: Seq<char>| r.contains(n) <==> is_requested(s, n)
    &&& forall|i: int, j: int, p: int, q: int|
        0 <= i < j < r.len() && first_request(s, p) && s[p].1 == r[i] && first_request(s, q)
            && s[q].1 == r[j] ==> asks_before(s, p, q)
}

proof fn lemma_asks_before_transitive(s: Seq<(usize, Seq<char>)>, p: int, q: int, o: int)
    requires
        asks_before(s, p, q),
        asks_before(s, q, o),
    ensures
        asks_before(s, p, o),
{
}

/// One of the positions in `out` is a request for `n`.
spec fn held(s: Seq<(usize, Seq<char>)>, out: Seq<usize>, n: Seq<char>) -> bool {
    exists|w: int| 0 <= w < out.len() && #[trigger] s[out[w] as int].1 == n
}

/// Request `p` is the first, among the first `k`, that asks for its field.
spec fn first_among(s: Seq<(usize, Seq<char>)>, k: int, p: int) -> bool {
    forall|q: int| 0 <= q < k && q != p && #[trigger] s[q].1 == s[p].1 ==> asks_before(s, p, q)
}

/// The positions in `out` are in request order.
spec fn sorted_positions(s: Seq<(usize, Seq<char>)>, out: Seq<usize>) -> bool {
    forall|w1: int, w2: int| 0 <= w1 < w2 < out.len() ==> asks_before(s, out[w1] as int, out[w2] as int)
}

/// The positions in `out` request different fields.
spec fn distinct_fields(s: Seq<(usize, Seq<char>)>, out: Seq<usize>) -> bool {
    forall|w1: int, w2: int|
        0 <= w1 < out.len() && 0 <= w2 < out.len() && w1 != w2 ==> s[out[w1] as int].1 != s[out[w2] as int].1
}

/// After the first `k` requests, `out` holds the first request of each field
/// asked for so far, in request order.
spec fn order_inv(s: Seq<(usize, Seq<char>)>, k: int, out: Seq<usize>) -> bool {
    &&& 0 <= k <= s.len()
    &&& forall|w: int| 0 <= w < out.len() ==> out[w] < k
    &&& forall|w: int| 0 <= w < out.len() ==> first_among(s, k, #[trigger] out[w] as int)
    &&& forall|q: int| 0 <= q < k ==> held(s, out, #[trigger] s[q].1)
    &&& sorted_positions(s, out)
    &&& distinct_fields(s, out)
}

/// `j` is where `k` belongs among the positions of `mid`.
spec fn placed_at(s: Seq<(usize, Seq<char>)>, mid: Seq<usize>, j: int, k: int) -> bool {
    &&& 0 <= j <= mid.len()
    &&& forall|v: int| 0 <= v < j ==> asks_before(s, #[trigger] mid[v] as int, k)
    &&& forall|v: int| j <= v < mid.len() ==> asks_before(s, k, #[trigger] mid[v] as int)
}

proof fn lemma_insert_keeps_order(s: Seq<(usize, Seq<char>)>, mid: Seq<usize>, j: int, k: int)
    requires
        sorted_positions(s, mid),
        placed_at(s, mid, j, k),
        0 <= k < s.len(),
        k <= usize::MAX,
    ensures
        sorted_positions(s, mid.insert(j, k as usize)),
{
    let out = mid.insert(j, k as usize);
    assert forall|w1: int, w2: int| 0 <= w1 < w2 < out.len() implies asks_before(
        s,
        out[w1] as int,
        out[w2] as int,
    ) by {
        if w1 < j && w2 < j {
            assert(asks_before(s, mid[w1] as int, mid[w2] as int));
        } else if w1 < j && w2 == j {
            assert(asks_before(s, mid[w1] as int, k));
        } else if w1 < j {
            assert(asks_before(s, mid[w1] as int, mid[w2 - 1] as int));
        } else if w1 == j {
            assert(asks_before(s, k, mid[w2 - 1] as int));
        } else {
            assert(asks_before(s, mid[w1 - 1] as int, mid[w2 - 1] as int));
        }
    }
}

/// Request `k` asks for a field already held, and not before its first
/// request: nothing changes.
proof fn lemma_step_seen(s: Seq<(usize, Seq<char>)>, k: int, out: Seq<usize>, w: int)
    requires
        order_inv(s, k, out),
        k < s.len(),
        k <= usize::MAX,
        0 <= w < out.len(),
        s[out[w] as int].1 == s[k].1,
        !(s[k].0 < s[out[w] as int].0),
    ensures
        order_inv(s, k + 1, out),
{
    assert forall|v: int| 0 <= v < out.len() implies first_among(s, k + 1, #[trigger] out[v] as int) by {
        assert(first_among(s, k, out[v] as int));
        if v != w {
            assert(s[out[v] as int].1 != s[out[w] as int].1);
        }
    }
    assert forall|q: int| 0 <= q < k + 1 implies held(s, out, #[trigger] s[q].1) by {
        if q == k {
            assert(s[out[w] as int].1 == s[q].1);
        }
    }
}

/// Request `k` asks for a field not held yet: it is placed at `j`.
proof fn lemma_step_new(s: Seq<(usize, Seq<char>)>, k: int, out: Seq<usize>, j: int)
    requires
        order_inv(s, k, out),
        k < s.len(),
        k <= usize::MAX,
        forall|w: int| 0 <= w < out.len() ==> s[#[trigger] out[w] as int].1 != s[k].1,
        placed_at(s, out, j, k),
    ensures
        order_inv(s, k + 1, out.insert(j, k as usize)),
{
    let after = out.insert(j, k as usize);
    lemma_insert_keeps_order(s, out, j, k);
    assert forall|v: int| 0 <= v < after.len() implies after[v] < k + 1 && first_among(
        s,
        k + 1,
        #[trigger] after[v] as int,
    ) by {
        if v == j {
            assert forall|q: int| 0 <= q < k + 1 && q != k && #[trigger] s[q].1 == s[k].1 implies asks_before(
                s,
                k,
                q,
            ) by {
                assert(held(s, out, s[q].1));
                let w2 = choose|w2: int| 0 <= w2 < out.len() && #[trigger] s[out[w2] as int].1 == s[q].1;
                assert(s[out[w2] as int].1 != s[k].1);
            }
        } else {
            let m = if v > j { v - 1 } else { v };
            assert(after[v] == out[m]);
            assert(first_among(s, k, out[m] as int));
            assert(s[out[m] as int].1 != s[k].1);
        }
    }
    assert forall|q: int| 0 <= q < k + 1 implies held(s, after, #[trigger] s[q].1) by {
        if q == k {
            assert(s[after[j] as int].1 == s[q].1);
        } else {
            assert(held(s, out, s[q].1));
            let w2 = choose|w2: int| 0 <= w2 < out.len() && #[trigger] s[out[w2] as int].1 == s[q].1;
            let v = if w2 >= j { w2 + 1 } else { w2 };
            assert(after[v] == out[w2]);
        }
    }
    assert forall|w1: int, w2: int| 0 <= w1 < after.len() && 0 <= w2 < after.len() && w1 != w2 implies s[after[w1] as int].1
        != s[after[w2] as int].1 by {
        let m1 = if w1 > j { w1 - 1 } else { w1 };
        let m2 = if w2 > j { w2 - 1 } else { w2 };
        if w1 == j {
            assert(after[w2] == out[m2]);
        } else if w2 == j {
            assert(after[w1] == out[m1]);
        } else {
            assert(after[w1] == out[m1]);
            assert(after[w2] == out[m2]);
        }
    }
}

/// Request `k` asks for the field held at `w`, before that field's first
/// request so far: `k` takes its place, moved to `j`.
proof fn lemma_step_earlier(s: Seq<(usize, Seq<char>)>, k: int, out: Seq<usize>, w: int, j: int)
    requires
        order_inv(s, k, out),
        k < s.len(),
        k <= usize::MAX,
        0 <= w < out.len(),
        s[out[w] as int].1 == s[k].1,
        s[k].0 < s[out[w] as int].0,
        placed_at(s, out.remove(w), j, k),
    ensures
        order_inv(s, k + 1, out.remove(w).insert(j, k as usize)),
{
    let mid = out.remove(w);
    let o = out[w] as int;
    assert forall|v: int| 0 <= v < mid.len() implies #[trigger] mid[v] == out[if v >= w { v + 1 } else { v }] by {}
    assert(sorted_positions(s, mid)) by {
        assert forall|w1: int, w2: int| 0 <= w1 < w2 < mid.len() implies asks_before(
            s,
            mid[w1] as int,
            mid[w2] as int,
        ) by {
            let b1 = if w1 >= w { w1 + 1 } else { w1 };
            let b2 = if w2 >= w { w2 + 1 } else { w2 };
            assert(mid[w1] == out[b1]);
            assert(mid[w2] == out[b2]);
        }
    }
    // No other held position asks for this field.
    assert forall|v: int| 0 <= v < mid.len() implies s[#[trigger] mid[v] as int].1 != s[k].1 by {
        let b = if v >= w { v + 1 } else { v };
        assert(mid[v] == out[b]);
    }
    // The rest is as for a new field, except that the dropped position asked
    // for it too.
    let after = mid.insert(j, k as usize);
    lemma_insert_keeps_order(s, mid, j, k);
    assert forall|v: int| 0 <= v < after.len() implies after[v] < k + 1 && first_among(
        s,
        k + 1,
        #[trigger] after[v] as int,
    ) by {
        if v == j {
            assert forall|q: int| 0 <= q < k + 1 && q != k && #[trigger] s[q].1 == s[k].1 implies asks_before(
                s,
                k,
                q,
            ) by {
                assert(first_among(s, k, o));
                if q != o {
                    lemma_asks_before_transitive(s, k, o, q);
                }
            }
        } else {
            let m = if v > j { v - 1 } else { v };
            let b = if m >= w { m + 1 } else { m };
            assert(after[v] == mid[m]);
            assert(mid[m] == out[b]);
            assert(first_among(s, k, out[b] as int));
            assert(s[out[b] as int].1 != s[out[w] as int].1);
        }
    }
    assert forall|q: int| 0 <= q < k + 1 implies held(s, after, #[trigger] s[q].1) by {
        if q == k || s[q].1 == s[k].1 {
            assert(s[after[j] as int].1 == s[q].1);
        } else {
            assert(held(s, out, s[q].1));
            let w2 = choose|w2: int| 0 <= w2 < out.len() && #[trigger] s[out[w2] as int].1 == s[q].1;
            assert(w2 != w);
            let m = if w2 > w { w2 - 1 } else { w2 };
            assert(mid[m] == out[w2]);
            let v = if m >= j { m + 1 } else { m };
            assert(after[v] == mid[m]);
        }
    }
    assert forall|w1: int, w2: int| 0 <= w1 < after.len() && 0 <= w2 < after.len() && w1 != w2 implies s[after[w1] as int].1
        != s[after[w2] as int].1 by {
        let m1 = if w1 > j { w1 - 1 } else { w1 };
        let m2 = if w2 > j { w2 - 1 } else { w2 };
        if w1 == j {
            assert(after[w2] == mid[m2]);
        } else if w2 == j {
            assert(after[w1] == mid[m1]);
        } else {
            let b1 = if m1 >= w { m1 + 1 } else { m1 };
            let b2 = if m2 >= w { m2 + 1 } else { m2 };
            assert(after[w1] == out[b1]);
            assert(after[w2] == out[b2]);
        }
    }
}

/// Where `k` belongs among the positions `out`, all of them earlier than `k`.
fn place_of(entries: &Vec<(usize, String)>, out: &Vec<usize>, k: usize) -> (j: usize)
    requires
        k < entries.len(),
        forall|w: int| 0 <= w < out.len() ==> out@[w] < k,
        sorted_positions(request_views(entries@), out@),
    ensures
        placed_at(request_views(entries@), out@, j as int, k as int),
{
    let ghost s = request_views(entries@);
    assert(s[k as int] == (entries@[k as int].0, entries@[k as int].1@));
    let mut j: usize = 0;
    let mut stop = false;
    while j < out.len() && !stop
        invariant
            j <= out.len(),
            s == request_views(entries@),
            k < entries.len(),
            s[k as int] == (entries@[k as int].0, entries@[k as int].1@),
            forall|w: int| 0 <= w < out.len() ==> out@[w] < k,
            forall|v: int| 0 <= v < j ==> asks_before(s, #[trigger] out@[v] as int, k as int),
            stop ==> j < out.len() && asks_before(s, k as int, out@[j as int] as int),
        decreases out.len() - j + (if stop { 0int } else { 1int }),
    {
        let o = out[j];
        assert(s[o as int] == (entries@[o as int].0, entries@[o as int].1@));
        if entries[k].0 < entries[o].0 {
            stop = true;
        } else {
            j += 1;
        }
    }
    assert forall|v: int| j <= v < out.len() implies asks_before(s, k as int, #[trigger] out@[v] as int) by {
        if v > j {
            assert(asks_before(s, out@[j as int] as int, out@[v] as int));
            lemma_asks_before_transitive(s, k as int, out@[j as int] as int, out@[v] as int);
        }
    }
    j
}

/// The fields `entries` request, each once, in the order in which each was
/// first requested.
pub fn order_requests(entries: &Vec<(usize, String)>) -> (r: Vec<String>)
    ensures
        in_request_order(request_views(entries@), views(r@)),
{
    let ghost s = request_views(entries@);
    // The position of the first request of each field seen so far, in
    // request order.
    let mut out: Vec<usize> = Vec::new();
    let mut k: usize = 0;
    while k < entries.len()
        invariant
            s == request_views(entries@),
            s.len() == entries.len(),
            k <= entries.len(),
            order_inv(s, k as int, out@),
        decreases entries.len() - k,
    {
        let ghost kk = k as int;
        assert(s[kk] == (entries@[kk].0, entries@[kk].1@));
        // Look for the field of request k among those held.
        let mut w: usize = 0;
        let mut found = false;
        while w < out.len() && !found
            invariant
                w <= out.len(),
                s == request_views(entries@),
                k < entries.len(),
                kk == k,
                s[kk] == (entries@[kk].0, entries@[kk].1@),
                forall|w0: int| 0 <= w0 < out.len() ==> out@[w0] < k,
                forall|v: int| 0 <= v < w ==> s[#[trigger] out@[v] as int].1 != s[kk].1,
                found ==> w < out.len() && s[out@[w as int] as int].1 == s[kk].1,
            decreases out.len() - w + (if found { 0int } else { 1int }),
        {
            let o = out[w];
            assert(s[o as int] == (entries@[o as int].0, entries@[o as int].1@));
            if entries[o].1 == entries[k].1 {
                found = true;
            } else {
                w += 1;
            }
        }
        let ghost before = out@;
        if found {
            let o = out[w];
            assert(s[o as int] == (entries@[o as int].0, entries@[o as int].1@));
            if entries[k].0 < entries[o].0 {
                out.remove(w);
                proof {
                    assert forall|v: int| 0 <= v < out.len() implies out@[v] < k by {
                        let b = if v >= w as int { v + 1 } else { v };
                        assert(out@[v] == before[b]);
                    }
                    assert(sorted_positions(s, out@)) by {
                        assert forall|w1: int, w2: int| 0 <= w1 < w2 < out.len() implies asks_before(
                            s,
                            out@[w1] as int,
                            out@[w2] as int,
                        ) by {
                            let b1 = if w1 >= w as int { w1 + 1 } else { w1 };
                            let b2 = if w2 >= w as int { w2 + 1 } else { w2 };
                            assert(out@[w1] == before[b1]);
                            assert(out@[w2] == before[b2]);
                        }
                    }
                }
                let j = place_of(entries, &out, k);
                proof {
                    assert(out@ == before.remove(w as int));
                    lemma_step_earlier(s, kk, before, w as int, j as int);
                }
                out.insert(j, k);
            } else {
                proof {
                    lemma_step_seen(s, kk, before, w as int);
                }
            }
        } else {
            let j = place_of(entries, &out, k);
            proof {
                lemma_step_new(s, kk, before, j as int);
            }
            out.insert(j, k);
        }
        k += 1;
    }
    let mut r: Vec<String> = Vec::new();
    let mut w: usize = 0;
    while w < out.len()
        invariant
            w <= out.len(),
            s == request_views(entries@),
            s.len() == entries.len(),
            forall|w0: int| 0 <= w0 < out.len() ==> out@[w0] < entries.len(),
            views(r@) =~= Seq::new(w as nat, |v: int| s[out@[v] as int].1),
        decreases out.len() - w,
    {
        let o = out[w];
        assert(s[o as int] == (entries@[o as int].0, entries@[o as int].1@));
        let ghost before = views(r@);
        r.push(entries[o].1.clone());
        assert(views(r@) =~= before.push(s[o as int].1));
        w += 1;
    }
    proof {
        let rv = views(r@);
        // A field has a single first request.
        assert forall|v: int, p: int| 0 <= v < out.len() && first_request(s, p) && s[p].1 == rv[v] implies p
            == out@[v] as int by {
            assert(first_among(s, s.len() as int, out@[v] as int));
            if p != out@[v] as int {
                assert(asks_before(s, p, out@[v] as int));
                assert(asks_before(s, out@[v] as int, p));
            }
        }
        assert forall|n: Seq<char>| rv.contains(n) <==> is_requested(s, n) by {
            if rv.contains(n) {
                let v = choose|v: int| 0 <= v < rv.len() && rv[v] == n;
                assert(s[out@[v] as int].1 == n);
            }
            if is_requested(s, n) {
                let p = choose|p: int| 0 <= p < s.len() && #[trigger] s[p].1 == n;
                assert(held(s, out@, s[p].1));
                let v = choose|v: int| 0 <= v < out.len() && #[trigger] s[out@[v] as int].1 == s[p].1;
                assert(rv[v] == n);
            }
        }
        assert(rv.no_duplicates());
    }
    r
}

// ---------------------------------------------------------------------------
// From parsed arguments to a normalized invocation.
// ---------------------------------------------------------------------------

/// The smallest of a non-empty list of positions.
pub open spec fn least(at: Seq<usize>) -> usize
    decreases at.len(),
{
    if at.len() <= 1 {
        at[0]
    } else if at.last() < least(at.drop_last()) {
        at.last()
    } else {
        least(at.drop_last())
    }
}

/// The request a field flag makes: at the first position it was given, if
/// it was given at all.
pub open spec fn flag_request(at: Seq<usize>, field: Seq<char>) -> Seq<(usize, Seq<char>)> {
    if at.len() == 0 {
        Seq::empty()
    } else {
        seq![(least(at), field)]
    }
}

/// The `-f/--field` values, lowercased, with their positions.
pub open spec fn value_requests(values: Seq<(usize, String)>) -> Seq<(usize, Seq<char>)> {
    values.map_values(|e: (usize, String)| (e.0, lowercase_of(e.1@)))
}

/// Every field request of a `pick` invocation: the `-f` values first, then
/// the flags `-i`, `-u`, `-p` and `-c`, each standing for its field.
pub open spec fn field_requests(m: PickMatches) -> Seq<(usize, Seq<char>)> {
    value_requests(m.field_values@) + flag_request(m.hostname_at@, "hostname"@) + flag_request(
        m.user_at@,
        "user"@,
    ) + flag_request(m.port_at@, "port"@) + flag_request(m.control_path_at@, "controlpath"@)
}

/// `fields` are the fields a `pick` invocation asks for: those requested, in
/// request order, or `hostname` alone when `-L` was given with no field.
pub open spec fn fields_of(m: PickMatches, fields: Seq<Seq<char>>) -> bool {
    if m.literal && field_requests(m).len() == 0 {
        fields == seq!["hostname"@]
    } else {
        in_request_order(field_requests(m), fields)
    }
}

/// `a` is the normalized form of the `pick` arguments `m`.
pub open spec fn pick_args_of(m: PickMatches, a: PickArgs) -> bool {
    &&& fields_of(m, views(a.fields@))
    &&& a.query == m.query
    &&& a.multi == m.multi
    &&& a.config == m.config
    &&& a.literal == m.literal
    &&& a.json == m.json
    &&& a.preview_cmd == m.preview_cmd
}

/// `a` is the normalized form of the `probe` arguments `m`.
pub open spec fn probe_args_of(m: ProbeMatches, a: ProbeArgs) -> bool {
    &&& a.host@ == match m.host {
        Some(h) => h@,
        None => Seq::<char>::empty(),
    }
    &&& a.verbose == m.verbose
    &&& a.plain == m.plain
    &&& a.json == m.json
    &&& a.no_probes == m.no_probes
}

/// The first of the positions at which a flag was given.
fn least_position(at: &Vec<usize>) -> (r: usize)
    requires
        at.len() > 0,
    ensures
        r == least(at@),
{
    let mut r = at[0];
    let mut i: usize = 1;
    assert(at@.take(1).len() == 1);
    while i < at.len()
        invariant
            1 <= i <= at.len(),
            r == least(at@.take(i as int)),
        decreases at.len() - i,
    {
        assert(at@.take(i + 1).drop_last() =~= at@.take(i as int));
        if at[i] < r {
            r = at[i];
        }
        i += 1;
    }
    assert(at@.take(i as int) =~= at@);
    r
}

/// Appends the request a field flag makes, if it was given.
fn push_flag_request(entries: &mut Vec<(usize, String)>, at: &Vec<usize>, field: &str)
    ensures
        request_views(final(entries)@) == request_views(old(entries)@) + flag_request(at@, field@),
{
    if at.len() == 0 {
        assert(request_views(entries@) =~= request_views(entries@) + Seq::<(usize, Seq<char>)>::empty());
    } else {
        let i = least_position(at);
        let ghost before = request_views(entries@);
        entries.push((i, field.to_owned()));
        assert(request_views(entries@) =~= before + seq![(least(at@), field@)]);
    }
}

/// Every field a `pick` invocation asks for, in command-line order,
/// lowercased and each once.
pub fn collect_fields(m: &PickMatches) -> (r: Vec<String>)
    ensures
        in_request_order(field_requests(*m), views(r@)),
{
    let mut entries: Vec<(usize, String)> = Vec::new();
    let mut i: usize = 0;
    while i < m.field_values.len()
        invariant
            i <= m.field_values.len(),
            request_views(entries@) == value_requests(m.field_values@.take(i as int)),
        decreases m.field_values.len() - i,
    {
        let (at, value) = &m.field_values[i];
        let ghost before = request_views(entries@);
        entries.push((*at, to_lowercase(value.as_str())));
        assert(value_requests(m.field_values@.take(i + 1)) =~= before.push((*at, lowercase_of(value@))));
        assert(request_views(entries@) =~= before.push((*at, lowercase_of(value@))));
        i += 1;
    }
    assert(m.field_values@.take(i as int) =~= m.field_values@);
    push_flag_request(&mut entries, &m.hostname_at, "hostname");
    push_flag_request(&mut entries, &m.user_at, "user");
    push_flag_request(&mut entries, &m.port_at, "port");
    push_flag_request(&mut entries, &m.control_path_at, "controlpath");
    order_requests(&entries)
}

/// Normalizes what the parser found for `kame pick`.
pub fn pick_args(m: PickMatches) -> (r: PickArgs)
    ensures
        pick_args_of(m, r),
{
    let mut fields = collect_fields(&m);
    if m.literal && fields.len() == 0 {
        proof {
            if field_requests(m).len() > 0 {
                assert(is_requested(field_requests(m), field_requests(m)[0].1));
                assert(!views(fields@).contains(field_requests(m)[0].1));
            }
        }
        fields.push("hostname".to_owned());
        assert(views(fields@) =~= seq!["hostname"@]);
    } else {
        proof {
            if m.literal && field_requests(m).len() == 0 {
                assert(views(fields@).contains(views(fields@)[0]));
            }
        }
    }
    PickArgs {
        query: m.query,
        fields,
        multi: m.multi,
        config: m.config,
        literal: m.literal,
        json: m.json,
        preview_cmd: m.preview_cmd,
    }
}

/// Normalizes what the parser found for `kame probe`.
pub fn probe_args(m: ProbeMatches) -> (r: ProbeArgs)
    ensures
        probe_args_of(m, r),
{
    let host = match m.host {
        Some(h) => h,
        None => String::new(),
    };
    ProbeArgs { host, verbose: m.verbose, plain: m.plain, json: m.json, no_probes: m.no_probes }
}

/// Which subcommand the name the parser matched designates.
pub fn classify_subcommand(name: &str) -> (r: SubcommandName)
    ensures
        r == if name@ == "pick"@ {
            SubcommandName::Pick
        } else if name@ == "probe"@ {
            SubcommandName::Probe
        } else {
            SubcommandName::Unknown
        },
{
    if same_text(name, "pick") {
        SubcommandName::Pick
    } else if same_text(name, "probe") {
        SubcommandName::Probe
    } else {
        SubcommandName::Unknown
    }
}

/// Turns what the parser found into the normalized invocation.
///
/// `color` is the value of the global `--color` flag, if the parser has one;
/// `sub` is the subcommand it matched, if any.
pub fn from_matches(color: Option<ColorChoice>, sub: Option<SubcommandMatches>) -> (r: Result<Cli, CliError>)
    ensures
        match sub {
            None => r == Err::<Cli, CliError>(CliError::MissingSubcommand),
            Some(SubcommandMatches::Unknown(n)) => r == Err::<Cli, CliError>(CliError::UnknownSubcommand(n)),
            Some(SubcommandMatches::Pick(m)) => r matches Ok(cli) && cli.command matches Subcommand::Pick(a)
                && pick_args_of(m, a) && cli.color == match color {
                Some(c) => c,
                None => ColorChoice::Auto,
            },
            Some(SubcommandMatches::Probe(m)) => r matches Ok(cli) && cli.command matches Subcommand::Probe(a)
                && probe_args_of(m, a) && cli.color == match color {
                Some(c) => c,
                None => ColorChoice::Auto,
            },
        },
{
    let color = match color {
        Some(c) => c,
        None => ColorChoice::Auto,
    };
    match sub {
        None => Err(CliError::MissingSubcommand),
        Some(SubcommandMatches::Unknown(n)) => Err(CliError::UnknownSubcommand(n)),
        Some(SubcommandMatches::Pick(m)) => Ok(Cli { color, command: Subcommand::Pick(pick_args(m)) }),
        Some(SubcommandMatches::Probe(m)) => Ok(Cli { color, command: Subcommand::Probe(probe_args(m)) }),
    }
}

/// Whether `--color` forces colors on or off; `None` leaves it to whether
/// the output is a terminal.
pub fn forced_colors(color: ColorChoice) -> (r: Option<bool>)
    ensures
        r == match color {
            ColorChoice::Auto => None,
            ColorChoice::Always => Some(true),
            ColorChoice::Never => Some(false),
        },
{
    match color {
        ColorChoice::Auto => None,
        ColorChoice::Always => Some(true),
        ColorChoice::Never => Some(false),
    }
}

/// Whatever was asked, no field is printed twice; and `-L` always prints
/// at least one field.
pub proof fn lemma_fields_are_distinct_and_literal_prints_one(m: PickMatches, fields: Seq<Seq<char>>)
    requires
        fields_of(m, fields),
    ensures
        fields.no_duplicates(),
        m.literal ==> fields.len() > 0,
{
    let s = field_requests(m);
    if m.literal && s.len() == 0 {
        assert(fields.len() == 1);
    } else if s.len() > 0 {
        assert(is_requested(s, s[0].1));
        assert(fields.contains(s[0].1));
    }
}

// ---------------------------------------------------------------------------
// The examples at the bottom of `kame pick --help`.
// ---------------------------------------------------------------------------

/// `n` spaces.
pub open spec fn spaces(n: nat) -> Seq<char> {
    Seq::new(n, |i: int| ' ')
}

/// `d` with every newline replaced by `with`.
pub open spec fn replace_newlines(d: Seq<char>, with: Seq<char>) -> Seq<char>
    decreases d.len(),
{
    if d.len() == 0 {
        Seq::empty()
    } else if d.last() == '\n' {
        replace_newlines(d.drop_last(), with) + with
    } else {
        replace_newlines(d.drop_last(), with).push(d.last())
    }
}

/// The character count of the longest command, 0 when there is none.
pub open spec fn widest(table: Seq<(Seq<char>, Seq<char>)>) -> nat
    decreases table.len(),
{
    if table.len() == 0 {
        0
    } else if widest(table.drop_last()) < table.last().0.len() {
        table.last().0.len()
    } else {
        widest(table.drop_last())
    }
}

/// The indentation of an example row, and the gap between its columns.
pub open spec fn indent() -> Seq<char> {
    seq![' ', ' ']
}

/// One example row: indented, the command styled as a literal and padded to
/// `width`, then the description, whose continuation lines hang under its
/// first one.
pub open spec fn example_row(
    cmd: Seq<char>,
    desc: Seq<char>,
    width: nat,
    literal_on: Seq<char>,
    literal_off: Seq<char>,
) -> Seq<char> {
    seq!['\n'] + indent() + literal_on + cmd + literal_off + spaces((width - cmd.len()) as nat) + indent()
        + replace_newlines(desc, seq!['\n'] + spaces(width + 4))
}

/// The rows of the first `table.len()` examples.
pub open spec fn example_rows(
    table: Seq<(Seq<char>, Seq<char>)>,
    width: nat,
    literal_on: Seq<char>,
    literal_off: Seq<char>,
) -> Seq<char>
    decreases table.len(),
{
    if table.len() == 0 {
        Seq::empty()
    } else {
        example_rows(table.drop_last(), width, literal_on, literal_off) + example_row(
            table.last().0,
            table.last().1,
            width,
            literal_on,
            literal_off,
        )
    }
}

/// The `Examples:` block: a styled heading, then one row per example.
pub open spec fn examples_text(
    table: Seq<(Seq<char>, Seq<char>)>,
    header_on: Seq<char>,
    header_off: Seq<char>,
    literal_on: Seq<char>,
    literal_off: Seq<char>,
) -> Seq<char> {
    header_on + "Examples:"@ + header_off + example_rows(table, widest(table), literal_on, literal_off)
}

/// The commands and descriptions of a table of examples.
pub open spec fn table_views(t: Seq<(&str, &str)>) -> Seq<(Seq<char>, Seq<char>)> {
    t.map_values(|e: (&str, &str)| (e.0@, e.1@))
}

/// The examples listed under `kame pick --help`, as (command, description).
pub fn pick_examples_table() -> (r: Vec<(&'static str, &'static str)>)
    ensures
        table_views(r@) == seq![
            ("ssh $(kame pick)"@, "Pick a host and connect to it with SSH"@),
            ("ssh -J proxy $(kame pick prod)"@, "Pick a host and connect to it through a proxy. Starts fuzzy search with \"prod\""@),
            ("scp file $(kame pick):/tmp"@, "Pick a host and copy a file to its /tmp dir"@),
            ("curl https://$(kame pick -i)/v1/api"@, "Pick a host and curl its hostname"@),
            ("rm $(kame pick -m -c)"@, "Pick hosts and remove their control paths"@),
            ("kame pick -m -i -u --json"@, "Pick hosts and print their hostnames and users as a json array"@),
            ("kame pick -L -f identityfile 'web-*'"@, "Print the SSH key files used for web-* hosts (quote any args with '*' when run in a shell)"@),
            ("kame pick --preview-cmd cowsay -s {}"@, "Pick a host with a funny preview (calls `cowsay -s {}`)"@),
        ],
{
    let mut r: Vec<(&'static str, &'static str)> = Vec::new();
    r.push(("ssh $(kame pick)", "Pick a host and connect to it with SSH"));
    r.push(
        (
            "ssh -J proxy $(kame pick prod)",
            "Pick a host and connect to it through a proxy. Starts fuzzy search with \"prod\"",
        ),
    );
    r.push(("scp file $(kame pick):/tmp", "Pick a host and copy a file to its /tmp dir"));
    r.push(("curl https://$(kame pick -i)/v1/api", "Pick a host and curl its hostname"));
    r.push(("rm $(kame pick -m -c)", "Pick hosts and remove their control paths"));
    r.push(("kame pick -m -i -u --json", "Pick hosts and print their hostnames and users as a json array"));
    r.push(
        (
            "kame pick -L -f identityfile 'web-*'",
            "Print the SSH key files used for web-* hosts (quote any args with '*' when run in a shell)",
        ),
    );
    r.push(("kame pick --preview-cmd cowsay -s {}", "Pick a host with a funny preview (calls `cowsay -s {}`)"));
    assert(table_views(r@) =~= seq![
            ("ssh $(kame pick)"@, "Pick a host and connect to it with SSH"@),
            ("ssh -J proxy $(kame pick prod)"@, "Pick a host and connect to it through a proxy. Starts fuzzy search with \"prod\""@),
            ("scp file $(kame pick):/tmp"@, "Pick a host and copy a file to its /tmp dir"@),
            ("curl https://$(kame pick -i)/v1/api"@, "Pick a host and curl its hostname"@),
            ("rm $(kame pick -m -c)"@, "Pick hosts and remove their control paths"@),
            ("kame pick -m -i -u --json"@, "Pick hosts and print their hostnames and users as a json array"@),
            ("kame pick -L -f identityfile 'web-*'"@, "Print the SSH key files used for web-* hosts (quote any args with '*' when run in a shell)"@),
            ("kame pick --preview-cmd cowsay -s {}"@, "Pick a host with a funny preview (calls `cowsay -s {}`)"@),
        ]);
    r
}

/// Appends `n` spaces.
fn push_spaces(s: &mut String, n: usize)
    ensures
        final(s)@ == old(s)@ + spaces(n as nat),
{
    let mut i: usize = 0;
    while i < n
        invariant
            i <= n,
            s@ == old(s)@ + spaces(i as nat),
        decreases n - i,
    {
        push_char(s, ' ');
        assert(spaces((i + 1) as nat) =~= spaces(i as nat).push(' '));
        i += 1;
    }
}

/// Appends `d`, each newline in it replaced by a newline and `hang` spaces.
fn push_hanging(s: &mut String, d: &str, hang: usize)
    ensures
        final(s)@ == old(s)@ + replace_newlines(d@, seq!['\n'] + spaces(hang as nat)),
{
    let cs = chars_of(d);
    let ghost with = seq!['\n'] + spaces(hang as nat);
    let mut i: usize = 0;
    assert(cs@.take(0) =~= Seq::<char>::empty());
    assert(old(s)@ + replace_newlines(Seq::<char>::empty(), with) =~= old(s)@);
    while i < cs.len()
        invariant
            i <= cs.len(),
            cs@ == d@,
            with == seq!['\n'] + spaces(hang as nat),
            s@ == old(s)@ + replace_newlines(cs@.take(i as int), with),
        decreases cs.len() - i,
    {
        let ghost before = s@;
        assert(cs@.take(i + 1).drop_last() =~= cs@.take(i as int));
        if cs[i] == '\n' {
            push_char(s, '\n');
            push_spaces(s, hang);
            assert(s@ =~= before + with);
        } else {
            push_char(s, cs[i]);
        }
        assert(s@ =~= old(s)@ + replace_newlines(cs@.take(i + 1), with));
        i += 1;
    }
    assert(cs@.take(i as int) =~= cs@);
}

/// Renders an `Examples:` block from a table of (command, description)
/// pairs; `header_on`/`header_off` style the heading and
/// `literal_on`/`literal_off` each command.
pub fn examples_block(
    table: &Vec<(&str, &str)>,
    header_on: &str,
    header_off: &str,
    literal_on: &str,
    literal_off: &str,
) -> (r: String)
    requires
        forall|i: int| 0 <= i < table@.len() ==> (#[trigger] table@[i]).0@.len() + 4 <= usize::MAX,
    ensures
        r@ == examples_text(table_views(table@), header_on@, header_off@, literal_on@, literal_off@),
{
    let ghost t = table_views(table@);
    // The width of the command column.
    let mut width: usize = 0;
    let mut i: usize = 0;
    while i < table.len()
        invariant
            i <= table.len(),
            t == table_views(table@),
            width == widest(t.take(i as int)),
            width + 4 <= usize::MAX,
            forall|j: int| 0 <= j < table@.len() ==> (#[trigger] table@[j]).0@.len() + 4 <= usize::MAX,
        decreases table.len() - i,
    {
        assert(t.take(i + 1).drop_last() =~= t.take(i as int));
        let n = chars_of(table[i].0).len();
        if width < n {
            width = n;
        }
        i += 1;
    }
    assert(t.take(i as int) =~= t);
    let mut r = String::new();
    push_text(&mut r, header_on);
    push_text(&mut r, "Examples:");
    push_text(&mut r, header_off);
    let ghost head = r@;
    assert(t.take(0) =~= Seq::<(Seq<char>, Seq<char>)>::empty());
    assert(head + example_rows(t.take(0), width as nat, literal_on@, literal_off@) =~= head);
    let mut k: usize = 0;
    while k < table.len()
        invariant
            k <= table.len(),
            t == table_views(table@),
            width == widest(t),
            width + 4 <= usize::MAX,
            r@ == head + example_rows(t.take(k as int), width as nat, literal_on@, literal_off@),
        decreases table.len() - k,
    {
        let (cmd, desc) = table[k];
        let n = chars_of(cmd).len();
        proof {
            assert(t[k as int] == (cmd@, desc@));
            lemma_widest(t, k as int);
        }
        let ghost before = r@;
        push_char(&mut r, '\n');
        push_text(&mut r, "  ");
        push_text(&mut r, literal_on);
        push_text(&mut r, cmd);
        push_text(&mut r, literal_off);
        push_spaces(&mut r, width - n);
        push_text(&mut r, "  ");
        push_hanging(&mut r, desc, width + 4);
        proof {
            reveal_strlit("  ");
            assert(t.take(k + 1).drop_last() =~= t.take(k as int));
            assert(r@ =~= before + example_row(cmd@, desc@, width as nat, literal_on@, literal_off@));
        }
        k += 1;
    }
    assert(t.take(k as int) =~= t);
    r
}

/// No command is wider than the widest.
proof fn lemma_widest(t: Seq<(Seq<char>, Seq<char>)>, k: int)
    requires
        0 <= k < t.len(),
    ensures
        t[k].0.len() <= widest(t),
    decreases t.len(),
{
    if k < t.len() - 1 {
        lemma_widest(t.drop_last(), k);
    }
}

/// The `Examples:` block of `kame pick --help`, its heading styled with
/// `header_on`/`header_off` and its commands with `literal_on`/`literal_off`
/// (the escape sequences of the help's own styles, or nothing).
pub fn pick_examples(header_on: &str, header_off: &str, literal_on: &str, literal_off: &str) -> (r: String)
    ensures
        r@ == examples_text(
            seq![
                ("ssh $(kame pick)"@, "Pick a host and connect to it with SSH"@),
                ("ssh -J proxy $(kame pick prod)"@, "Pick a host and connect to it through a proxy. Starts fuzzy search with \"prod\""@),
                ("scp file $(kame pick):/tmp"@, "Pick a host and copy a file to its /tmp dir"@),
                ("curl https://$(kame pick -i)/v1/api"@, "Pick a host and curl its hostname"@),
                ("rm $(kame pick -m -c)"@, "Pick hosts and remove their control paths"@),
                ("kame pick -m -i -u --json"@, "Pick hosts and print their hostnames and users as a json array"@),
                ("kame pick -L -f identityfile 'web-*'"@, "Print the SSH key files used for web-* hosts (quote any args with '*' when run in a shell)"@),
                ("kame pick --preview-cmd cowsay -s {}"@, "Pick a host with a funny preview (calls `cowsay -s {}`)"@),
            ],
            header_on@,
            header_off@,
            literal_on@,
            literal_off@,
        ),
{
    let table = pick_examples_table();
    proof {
        assert forall|i: int| 0 <= i < table@.len() implies (#[trigger] table@[i]).0@.len() + 4 <= usize::MAX by {
            let tv = table_views(table@);
            assert(tv[i] == (table@[i].0@, table@[i].1@));
            assert(tv.len() == 8);
            assert(tv[0].0 == "ssh $(kame pick)"@);
            assert(tv[1].0 == "ssh -J proxy $(kame pick prod)"@);
            assert(tv[2].0 == "scp file $(kame pick):/tmp"@);
            assert(tv[3].0 == "curl https://$(kame pick -i)/v1/api"@);
            assert(tv[4].0 == "rm $(kame pick -m -c)"@);
            assert(tv[5].0 == "kame pick -m -i -u --json"@);
            assert(tv[6].0 == "kame pick -L -f identityfile 'web-*'"@);
            assert(tv[7].0 == "kame pick --preview-cmd cowsay -s {}"@);
            reveal_strlit("ssh $(kame pick)");
            reveal_strlit("ssh -J proxy $(kame pick prod)");
            reveal_strlit("scp file $(kame pick):/tmp");
            reveal_strlit("curl https://$(kame pick -i)/v1/api");
            reveal_strlit("rm $(kame pick -m -c)");
            reveal_strlit("kame pick -m -i -u --json");
            reveal_strlit("kame pick -L -f identityfile 'web-*'");
            reveal_strlit("kame pick --preview-cmd cowsay -s {}");
        }
    }
    examples_block(&table, header_on, header_off, literal_on, literal_off)
}

} // verus!
