//! What `kame probe` prints about a host.
//!
//! The resolving (`ssh -G`) and the network probe are done by the program;
//! here are the decisions and the layout of each line it writes.

use colored::Colorize;
use vstd::prelude::*;
use crate::cli::ProbeArgs;
use crate::ssh::host_config::{HostConfig, MissingField};
use crate::text::{decimal, decimal_of, digit_char, join_commas, join_with_commas, push_char, push_text, same_text, views};

verus! {

// ---------------------------------------------------------------------------
// Colors.
// ---------------------------------------------------------------------------

/// No escape character in `t`.
pub open spec fn no_escape(t: Seq<char>) -> bool {
    !t.contains('\x1b')
}

/// The escape sequence that selects the display attributes `code`.
pub open spec fn sgr(code: Seq<char>) -> Seq<char> {
    seq!['\x1b', '['] + code + seq!['m']
}

/// The escape sequence that resets every attribute.
pub open spec fn reset() -> Seq<char> {
    sgr(seq!['0'])
}

/// `t` with the attributes `code` selected again after every reset in it,
/// so that a reset inside `t` does not end its drawing.
pub open spec fn restyled(t: Seq<char>, code: Seq<char>) -> Seq<char>
    decreases t.len(),
{
    if t.len() == 0 {
        Seq::empty()
    } else if t.len() >= 4 && t.take(4) == reset() {
        reset() + sgr(code) + restyled(t.skip(4), code)
    } else {
        seq![t[0]] + restyled(t.skip(1), code)
    }
}

/// `t` drawn with the attributes `code`, then every attribute reset.
pub open spec fn painted(code: Seq<char>, t: Seq<char>) -> Seq<char> {
    sgr(code) + restyled(t, code) + reset()
}

/// A text without escape characters holds no reset to draw again after.
pub proof fn lemma_restyled_plain(t: Seq<char>, code: Seq<char>)
    requires
        no_escape(t),
    ensures
        restyled(t, code) == t,
    decreases t.len(),
{
    if t.len() > 0 {
        assert(t[0] != '\x1b') by {
            if t[0] == '\x1b' {
                assert(t.contains('\x1b'));
            }
        }
        assert(!(t.len() >= 4 && t.take(4) == reset())) by {
            if t.len() >= 4 && t.take(4) == reset() {
                assert(t.take(4)[0] == reset()[0]);
            }
        }
        let t1 = t.skip(1);
        assert(!t1.contains('\x1b')) by {
            if t1.contains('\x1b') {
                let k = choose|k: int| 0 <= k < t1.len() && t1[k] == '\x1b';
                assert(t[k + 1] == '\x1b');
                assert(t.contains('\x1b'));
            }
        }
        lemma_restyled_plain(t1, code);
        assert(seq![t[0]] + t1 =~= t);
    }
}

/// `r` is `t` as `colored` writes it with the attributes `code`: drawn when
/// the process colorizes, unchanged when it does not.
pub open spec fn drawn(r: Seq<char>, code: Seq<char>, t: Seq<char>) -> bool {
    r == t || r == painted(code, t)
}

/// `text` in bold green, through `colored` (`green`, then `bold`).
///
/// `colored` writes the text unchanged when the process does not colorize,
/// and otherwise between the attributes' escape sequence (bold, `1`, before
/// the color, `32`) and a reset, with the attributes selected again after
/// every reset inside the text; which of the two depends on the process, so
/// both are allowed.
#[verifier::external_body]
fn green_bold(text: &str) -> (r: String)
    ensures
        drawn(r@, "1;32"@, text@),
{
    text.green().bold().to_string()
}

/// `text` in blue (`34`), through `colored::Colorize::blue`; drawn or
/// unchanged, as for `green_bold`.
#[verifier::external_body]
fn blue(text: &str) -> (r: String)
    ensures
        drawn(r@, "34"@, text@),
{
    text.blue().to_string()
}

/// `text` in bold bright cyan (`1;96`), through `colored` (`bright_cyan`,
/// then `bold`); drawn or unchanged, as for `green_bold`.
#[verifier::external_body]
fn bright_cyan_bold(text: &str) -> (r: String)
    ensures
        drawn(r@, "1;96"@, text@),
{
    text.bright_cyan().bold().to_string()
}

/// `text` in bold (`1`), through `colored::Colorize::bold`; drawn or
/// unchanged, as for `green_bold`.
#[verifier::external_body]
fn bold(text: &str) -> (r: String)
    ensures
        drawn(r@, "1"@, text@),
{
    text.bold().to_string()
}

/// `text` in green (`32`), through `colored::Colorize::green`; drawn or
/// unchanged, as for `green_bold`.
#[verifier::external_body]
fn green(text: &str) -> (r: String)
    ensures
        drawn(r@, "32"@, text@),
{
    text.green().to_string()
}

/// `text` in yellow (`33`), through `colored::Colorize::yellow`; drawn or
/// unchanged, as for `green_bold`.
#[verifier::external_body]
fn yellow(text: &str) -> (r: String)
    ensures
        drawn(r@, "33"@, text@),
{
    text.yellow().to_string()
}

/// `text` in red (`31`), through `colored::Colorize::red`; drawn or
/// unchanged, as for `green_bold`.
#[verifier::external_body]
fn red(text: &str) -> (r: String)
    ensures
        drawn(r@, "31"@, text@),
{
    text.red().to_string()
}

// ---------------------------------------------------------------------------
// What is shown.
// ---------------------------------------------------------------------------

/// A flag of `kame probe` that is documented but not implemented yet.
#[derive(Debug, Clone, Copy, PartialEq, Eq)]
pub enum UnimplementedFlag {
    Verbose,
    Plain,
    Json,
    NoProbes,
}

/// The first flag of `args` that `probe` cannot honour yet, checked in the
/// order `--verbose`, `--plain`, `--json`, `--no-probes`.
pub fn unimplemented_flag(args: &ProbeArgs) -> (r: Option<UnimplementedFlag>)
    ensures
        r == if args.verbose {
            Some(UnimplementedFlag::Verbose)
        } else if args.plain {
            Some(UnimplementedFlag::Plain)
        } else if args.json {
            Some(UnimplementedFlag::Json)
        } else if args.no_probes {
            Some(UnimplementedFlag::NoProbes)
        } else {
            None
        },
{
    if args.verbose {
        Some(UnimplementedFlag::Verbose)
    } else if args.plain {
        Some(UnimplementedFlag::Plain)
    } else if args.json {
        Some(UnimplementedFlag::Json)
    } else if args.no_probes {
        Some(UnimplementedFlag::NoProbes)
    } else {
        None
    }
}

impl UnimplementedFlag {
    /// The error that `probe` reports for this flag.
    pub fn message(self) -> (r: &'static str)
        ensures
            r@ == match self {
                UnimplementedFlag::Verbose => "--verbose not implemented"@,
                UnimplementedFlag::Plain => "--plain not implemented"@,
                UnimplementedFlag::Json => "--json not implemented"@,
                UnimplementedFlag::NoProbes => "--no-probes not implemented"@,
            },
    {
        match self {
            UnimplementedFlag::Verbose => "--verbose not implemented",
            UnimplementedFlag::Plain => "--plain not implemented",
            UnimplementedFlag::Json => "--json not implemented",
            UnimplementedFlag::NoProbes => "--no-probes not implemented",
        }
    }
}

/// How strongly a field's label is drawn.
#[derive(Debug, Clone, Copy, PartialEq, Eq)]
pub enum LabelIntensity {
    Normal,
    Bright,
}

/// The character sequences of an optional list of strings.
pub open spec fn opt_views(o: Option<&[String]>) -> Option<Seq<Seq<char>>> {
    match o {
        Some(s) => Some(views(s@)),
        None => None,
    }
}

/// The fields every probe shows, in this order.
pub open spec fn standard_fields() -> Seq<Seq<char>> {
    seq!["hostname"@, "user"@, "port"@]
}

/// The highlighted properties that are not standard fields, in order.
pub open spec fn extra_props(h: Seq<Seq<char>>) -> Seq<Seq<char>>
    decreases h.len(),
{
    if h.len() == 0 {
        Seq::empty()
    } else if standard_fields().contains(h.last()) {
        extra_props(h.drop_last())
    } else {
        extra_props(h.drop_last()).push(h.last())
    }
}

/// The properties a probe shows: the standard fields, then every
/// highlighted property that is not one of them.
pub open spec fn shown_props(highlight: Option<Seq<Seq<char>>>) -> Seq<Seq<char>> {
    match highlight {
        Some(h) => standard_fields() + extra_props(h),
        None => standard_fields(),
    }
}

proof fn lemma_extra_props(h: Seq<Seq<char>>)
    ensures
        forall|p: Seq<char>| #[trigger] extra_props(h).contains(p) <==> (h.contains(p) && !standard_fields().contains(p)),
        h.no_duplicates() ==> extra_props(h).no_duplicates(),
    decreases h.len(),
{
    if h.len() > 0 {
        let d = h.drop_last();
        let x = h.last();
        lemma_extra_props(d);
        assert(h =~= d.push(x));
        assert forall|p: Seq<char>| h.contains(p) <==> (d.contains(p) || p == x) by {
            if h.contains(p) {
                let k = choose|k: int| 0 <= k < h.len() && h[k] == p;
                if k < d.len() {
                    assert(d[k] == p);
                }
            }
            if d.contains(p) {
                let k = choose|k: int| 0 <= k < d.len() && d[k] == p;
                assert(h[k] == p);
            }
            if p == x {
                assert(h[h.len() - 1] == p);
            }
        }
        let e = extra_props(d);
        if !standard_fields().contains(x) {
            assert(extra_props(h) == e.push(x));
            assert forall|p: Seq<char>| e.push(x).contains(p) <==> (e.contains(p) || p == x) by {
                if e.push(x).contains(p) {
                    let k = choose|k: int| 0 <= k < e.push(x).len() && e.push(x)[k] == p;
                    if k < e.len() {
                        assert(e[k] == p);
                    }
                }
                if e.contains(p) {
                    let k = choose|k: int| 0 <= k < e.len() && e[k] == p;
                    assert(e.push(x)[k] == p);
                }
                if p == x {
                    assert(e.push(x)[e.len() as int] == p);
                }
            }
            if h.no_duplicates() {
                assert(d.no_duplicates()) by {
                    assert forall|i: int, j: int| 0 <= i < d.len() && 0 <= j < d.len() && i != j implies d[i] != d[j] by {
                        assert(h[i] == d[i] && h[j] == d[j]);
                    }
                }
                assert(!d.contains(x)) by {
                    if d.contains(x) {
                        let k = choose|k: int| 0 <= k < d.len() && d[k] == x;
                        assert(h[k] == x && h[h.len() - 1] == x);
                    }
                }
                assert(!e.contains(x));
                assert forall|i: int, j: int| 0 <= i < e.push(x).len() && 0 <= j < e.push(x).len() && i != j implies e.push(x)[i] != e.push(x)[j] by {
                    if i < e.len() && j < e.len() {
                        assert(e.push(x)[i] == e[i] && e.push(x)[j] == e[j]);
                    } else if i < e.len() {
                        assert(e.push(x)[i] == e[i]);
                        assert(e.contains(e[i]));
                    } else if j < e.len() {
                        assert(e.push(x)[j] == e[j]);
                        assert(e.contains(e[j]));
                    }
                }
            }
            assert forall|p: Seq<char>| #[trigger] extra_props(h).contains(p) <==> (h.contains(p)
                && !standard_fields().contains(p)) by {
                assert(e.contains(p) <==> (d.contains(p) && !standard_fields().contains(p)));
            }
        } else {
            assert(extra_props(h) == e);
            if h.no_duplicates() {
                assert forall|i: int, j: int| 0 <= i < d.len() && 0 <= j < d.len() && i != j implies d[i] != d[j] by {
                    assert(h[i] == d[i] && h[j] == d[j]);
                }
            }
            assert forall|p: Seq<char>| #[trigger] extra_props(h).contains(p) <==> (h.contains(p)
                && !standard_fields().contains(p)) by {
                assert(e.contains(p) <==> (d.contains(p) && !standard_fields().contains(p)));
            }
        }
    }
}

/// What a probe shows: `hostname`, `user` and `port` first, in that order,
/// and nothing else without highlights; with highlights, exactly those three
/// and the highlighted properties, none of them twice unless it is
/// highlighted twice.
pub proof fn lemma_shown_props(highlight: Option<Seq<Seq<char>>>)
    ensures
        shown_props(None) == seq!["hostname"@, "user"@, "port"@],
        shown_props(highlight).len() >= 3,
        shown_props(highlight).take(3) == seq!["hostname"@, "user"@, "port"@],
        forall|p: Seq<char>|
            #[trigger] shown_props(highlight).contains(p) <==> (p == "hostname"@ || p == "user"@ || p == "port"@
                || (highlight matches Some(h) && h.contains(p))),
        (highlight matches Some(h) ==> h.no_duplicates()) ==> shown_props(highlight).no_duplicates(),
{
    reveal_strlit("hostname");
    reveal_strlit("user");
    reveal_strlit("port");
    let st = standard_fields();
    assert(st[0] != st[1] && st[0] != st[2] && st[1] != st[2]) by {
        assert(st[0].len() != st[1].len());
        assert(st[0].len() != st[2].len());
        assert(st[1][0] != st[2][0]);
    }
    assert forall|p: Seq<char>| st.contains(p) <==> (p == "hostname"@ || p == "user"@ || p == "port"@) by {
        if st.contains(p) {
            let k = choose|k: int| 0 <= k < 3 && st[k] == p;
        }
        if p == "hostname"@ {
            assert(st[0] == p);
        }
        if p == "user"@ {
            assert(st[1] == p);
        }
        if p == "port"@ {
            assert(st[2] == p);
        }
    }
    match highlight {
        None => {
            assert(st.take(3) =~= st);
        },
        Some(h) => {
            lemma_extra_props(h);
            let e = extra_props(h);
            let all = st + e;
            assert(all.take(3) =~= st);
            assert forall|p: Seq<char>| all.contains(p) <==> (st.contains(p) || e.contains(p)) by {
                if all.contains(p) {
                    let k = choose|k: int| 0 <= k < all.len() && all[k] == p;
                    if k >= 3 {
                        assert(e[k - 3] == p);
                    }
                }
                if st.contains(p) {
                    let k = choose|k: int| 0 <= k < 3 && st[k] == p;
                    assert(all[k] == p);
                }
                if e.contains(p) {
                    let k = choose|k: int| 0 <= k < e.len() && e[k] == p;
                    assert(all[k + 3] == p);
                }
            }
            if h.no_duplicates() {
                assert forall|i: int, j: int| 0 <= i < all.len() && 0 <= j < all.len() && i != j implies all[i] != all[j] by {
                    if i >= 3 && j >= 3 {
                        assert(all[i] == e[i - 3] && all[j] == e[j - 3]);
                    } else if i >= 3 {
                        assert(all[i] == e[i - 3]);
                        assert(e.contains(e[i - 3]));
                        assert(st.contains(all[j]));
                    } else if j >= 3 {
                        assert(all[j] == e[j - 3]);
                        assert(e.contains(e[j - 3]));
                        assert(st.contains(all[i]));
                    }
                }
            }
        },
    }
}

proof fn lemma_digit_char(d: int)
    requires
        0 <= d < 10,
    ensures
        is_digit(digit_char(d)),
        (digit_char(d) as int) - ('0' as int) == d,
{
}

/// Every character of a decimal number is a digit, it has at least one,
/// and the digits stand for the number.
proof fn lemma_decimal_digits(n: nat)
    ensures
        decimal_of(n).len() > 0,
        forall|k: int| 0 <= k < decimal_of(n).len() ==> is_digit(#[trigger] decimal_of(n)[k]),
        digits_value(decimal_of(n)) == n,
    decreases n,
{
    let d = decimal_of(n);
    if n < 10 {
        lemma_digit_char(n as int);
        assert(d =~= seq![digit_char(n as int)]);
        assert(d.drop_last() =~= Seq::<char>::empty());
        assert(d.last() == digit_char(n as int));
        assert(digits_value(d.drop_last()) == 0);
        assert(digits_value(d) == digits_value(d.drop_last()) * 10 + ((d.last() as int) - ('0' as int)) as nat);
    } else {
        lemma_decimal_digits(n / 10);
        let f = decimal_of(n / 10);
        let c = digit_char((n % 10) as int);
        lemma_digit_char((n % 10) as int);
        assert(d == f.push(c));
        assert(d.drop_last() =~= f);
        assert(d.last() == c);
        assert forall|k: int| 0 <= k < d.len() implies is_digit(#[trigger] d[k]) by {
            if k < f.len() {
                assert(d[k] == f[k]);
            }
        }
        assert(n == (n / 10) * 10 + n % 10);
        assert(digits_value(d) == digits_value(d.drop_last()) * 10 + ((d.last() as int) - ('0' as int)) as nat);
        assert(digits_value(f) == n / 10);
        assert(((c as int) - ('0' as int)) as nat == n % 10);
    }
}

/// Reading a port gives back every number written in decimal: for each
/// `u32`, reading its digits yields it.
pub proof fn lemma_port_round_trip(n: u32)
    ensures
        port_value(decimal_of(n as nat)) == Some(n),
{
    lemma_decimal_digits(n as nat);
    let d = decimal_of(n as nat);
    assert(is_digit(d[0]));
    assert(port_digits(d) == d);
}

/// A property's label is bright when it is highlighted.
pub open spec fn intensity_of(highlight: Option<Seq<Seq<char>>>, p: Seq<char>) -> LabelIntensity {
    match highlight {
        Some(h) => if h.contains(p) {
            LabelIntensity::Bright
        } else {
            LabelIntensity::Normal
        },
        None => LabelIntensity::Normal,
    }
}

/// Whether `p` is one of the standard fields.
fn is_standard_field(p: &str) -> (r: bool)
    ensures
        r == standard_fields().contains(p@),
{
    let r = same_text(p, "hostname") || same_text(p, "user") || same_text(p, "port");
    proof {
        let f = standard_fields();
        if f.contains(p@) {
            let w = choose|w: int| 0 <= w < f.len() && f[w] == p@;
            assert(w == 0 || w == 1 || w == 2);
        }
        if p@ == "hostname"@ {
            assert(f[0] == p@);
        }
        if p@ == "user"@ {
            assert(f[1] == p@);
        }
        if p@ == "port"@ {
            assert(f[2] == p@);
        }
    }
    r
}

/// Whether `h` lists `p`.
fn lists(h: &[String], p: &str) -> (r: bool)
    ensures
        r == views(h@).contains(p@),
{
    let mut i: usize = 0;
    while i < h.len()
        invariant
            i <= h.len(),
            forall|j: int| 0 <= j < i ==> h@[j]@ != p@,
        decreases h.len() - i,
    {
        if same_text(h[i].as_str(), p) {
            assert(views(h@)[i as int] == p@);
            return true;
        }
        i += 1;
    }
    assert forall|j: int| 0 <= j < views(h@).len() implies views(h@)[j] != p@ by {
        assert(views(h@)[j] == h@[j]@);
    }
    false
}

/// The properties a probe shows, each with the intensity of its label.
pub fn props_to_show(highlight: Option<&[String]>) -> (r: Vec<(String, LabelIntensity)>)
    ensures
        r@.len() == shown_props(opt_views(highlight)).len(),
        forall|i: int|
            0 <= i < r@.len() ==> #[trigger] r@[i].0@ == shown_props(opt_views(highlight))[i]
                && r@[i].1 == intensity_of(opt_views(highlight), r@[i].0@),
{
    let ghost hv = opt_views(highlight);
    let mut names: Vec<String> = Vec::new();
    names.push("hostname".to_owned());
    names.push("user".to_owned());
    names.push("port".to_owned());
    assert(views(names@) =~= standard_fields());
    if let Some(h) = highlight {
        let mut i: usize = 0;
        while i < h.len()
            invariant
                i <= h.len(),
                views(names@) == standard_fields() + extra_props(views(h@).take(i as int)),
            decreases h.len() - i,
        {
            assert(views(h@).take(i + 1).drop_last() =~= views(h@).take(i as int));
            let ghost before = views(names@);
            if !is_standard_field(h[i].as_str()) {
                names.push(h[i].clone());
                assert(views(names@) =~= before.push(h@[i as int]@));
            }
            i += 1;
        }
        assert(views(h@).take(i as int) =~= views(h@));
    }
    assert(views(names@) == shown_props(hv));
    let mut r: Vec<(String, LabelIntensity)> = Vec::new();
    let mut k: usize = 0;
    while k < names.len()
        invariant
            k <= names.len(),
            views(names@) == shown_props(hv),
            hv == opt_views(highlight),
            r@.len() == k,
            forall|i: int|
                0 <= i < k ==> #[trigger] r@[i].0@ == views(names@)[i] && r@[i].1 == intensity_of(hv, r@[i].0@),
        decreases names.len() - k,
    {
        let p = names[k].clone();
        let intensity = match highlight {
            Some(h) => if lists(h, p.as_str()) {
                LabelIntensity::Bright
            } else {
                LabelIntensity::Normal
            },
            None => LabelIntensity::Normal,
        };
        assert(p@ == views(names@)[k as int]);
        assert(intensity == intensity_of(hv, p@));
        let ghost before = r@;
        let ghost pv = p@;
        r.push((p, intensity));
        assert(r@[k as int].0@ == pv && r@[k as int].1 == intensity);
        assert forall|i: int| 0 <= i < k + 1 implies #[trigger] r@[i].0@ == views(names@)[i] && r@[i].1
            == intensity_of(hv, r@[i].0@) by {
            if i < k {
                assert(r@[i] == before[i]);
                assert(before[i].0@ == views(names@)[i]);
                assert(before[i].1 == intensity_of(hv, before[i].0@));
            } else {
                assert(i == k);
                assert(r@[i].0@ == views(names@)[i]);
                assert(r@[i].1 == intensity_of(hv, r@[i].0@));
            }
        }
        k += 1;
    }
    r
}

/// A label: a name and a colon.
pub open spec fn label_of(name: Seq<char>) -> Seq<char> {
    name + seq![':']
}

/// The name a probe shows a property under: the way it is written in a
/// report for the properties a report names, else the property itself.
pub open spec fn pretty_name(property: Seq<char>) -> Seq<char> {
    if property == "hostname"@ {
        "Hostname"@
    } else if property == "user"@ {
        "User"@
    } else if property == "port"@ {
        "Port"@
    } else if property == "identityfile"@ {
        "Identity File"@
    } else if property == "proxyjump"@ {
        "ProxyJump"@
    } else {
        property
    }
}

/// The name a probe shows `property` under.
pub fn pretty_name_of(property: &str) -> (r: &str)
    ensures
        r@ == pretty_name(property@),
{
    if same_text(property, "hostname") {
        "Hostname"
    } else if same_text(property, "user") {
        "User"
    } else if same_text(property, "port") {
        "Port"
    } else if same_text(property, "identityfile") {
        "Identity File"
    } else if same_text(property, "proxyjump") {
        "ProxyJump"
    } else {
        property
    }
}

/// The first line of a probe: the host, after an antenna; drawn in bold
/// green unless `plain`.
pub fn render_host(host: &str, plain: bool) -> (r: String)
    ensures
        plain ==> r@ == seq!['📡', ' '] + host@ + seq!['\n'],
        !plain ==> exists|h: Seq<char>|
            drawn(h, "1;32"@, host@) && r@ == seq!['📡', ' '] + h + seq!['\n'],
{
    let mut r = String::new();
    push_char(&mut r, '📡');
    push_char(&mut r, ' ');
    let ghost mut shown = host@;
    if plain {
        push_text(&mut r, host);
    } else {
        let painted = green_bold(host);
        push_text(&mut r, painted.as_str());
        proof {
            shown = painted@;
        }
    }
    push_char(&mut r, '\n');
    assert(r@ =~= seq!['📡', ' '] + shown + seq!['\n']);
    assert(!plain ==> drawn(shown, "1;32"@, host@));
    r
}

/// The attributes of a label: blue, or bold bright cyan when bright.
pub open spec fn label_code(intensity: LabelIntensity) -> Seq<char> {
    match intensity {
        LabelIntensity::Normal => "34"@,
        LabelIntensity::Bright => "1;96"@,
    }
}

/// `r` is the line of a property with label `label` and values `text` at
/// `intensity`: the label drawn in its attributes, a space, the values
/// (drawn bold when bright), a newline.
pub open spec fn field_line(r: Seq<char>, label: Seq<char>, text: Seq<char>, intensity: LabelIntensity) -> bool {
    exists|l: Seq<char>, v: Seq<char>|
        drawn(l, label_code(intensity), label)
        && (if intensity == LabelIntensity::Bright {
            drawn(v, "1"@, text)
        } else {
            v == text
        })
        && r == l + seq![' '] + v + seq!['\n']
}

/// The line of one property of `config`: its label (its pretty name and a
/// colon), then its values joined with commas. A bright label is also drawn
/// bold, and so are its values. A property that `config` does not report
/// is an error naming it.
pub fn render_field(config: &HostConfig, property: &str, intensity: LabelIntensity) -> (r: Result<
    String,
    MissingField,
>)
    ensures
        match r {
            Ok(s) => config.options().contains_key(property@) && ({
                let label = label_of(pretty_name(property@));
                let text = join_commas(config.options()[property@]);
                field_line(s@, label, text, intensity)
            }),
            Err(e) => !config.options().contains_key(property@) && e.field@ == property@,
        },
{
    let values = match config.get(property) {
        Some(vs) => vs,
        None => {
            return Err(MissingField { field: property.to_owned() });
        },
    };
    let ghost label_v = label_of(pretty_name(property@));
    let ghost text_v = join_commas(config.options()[property@]);
    let mut label = String::new();
    push_text(&mut label, pretty_name_of(property));
    push_char(&mut label, ':');
    assert(label@ == label_v);
    let text = join_with_commas(values);
    assert(text@ == text_v);
    let painted_label = match intensity {
        LabelIntensity::Normal => blue(label.as_str()),
        LabelIntensity::Bright => bright_cyan_bold(label.as_str()),
    };
    let painted_text = match intensity {
        LabelIntensity::Normal => text.clone(),
        LabelIntensity::Bright => bold(text.as_str()),
    };
    let mut r = String::new();
    push_text(&mut r, painted_label.as_str());
    push_char(&mut r, ' ');
    push_text(&mut r, painted_text.as_str());
    push_char(&mut r, '\n');
    assert(r@ =~= painted_label@ + seq![' '] + painted_text@ + seq!['\n']);
    assert(drawn(painted_label@, label_code(intensity), label_v));
    assert((if intensity == LabelIntensity::Bright {
        drawn(painted_text@, "1"@, text_v)
    } else {
        painted_text@ == text_v
    }));
    Ok(r)
}

/// How a latency is judged.
#[derive(Debug, Clone, Copy, PartialEq, Eq)]
pub enum LatencyGrade {
    /// Under half a second: drawn green.
    Good,
    /// Under five seconds: drawn yellow.
    Slow,
    /// Five seconds or more: drawn red.
    Bad,
}

/// The grade of a latency of `ms` milliseconds.
pub open spec fn grade_of(ms: u128) -> LatencyGrade {
    if ms < 500 {
        LatencyGrade::Good
    } else if ms < 5000 {
        LatencyGrade::Slow
    } else {
        LatencyGrade::Bad
    }
}

/// The grade of a latency in milliseconds.
pub fn grade_latency(ms: u128) -> (r: LatencyGrade)
    ensures
        r == grade_of(ms),
{
    if ms < 500 {
        LatencyGrade::Good
    } else if ms < 5000 {
        LatencyGrade::Slow
    } else {
        LatencyGrade::Bad
    }
}

/// The color of a grade: green, yellow or red.
pub open spec fn grade_code(g: LatencyGrade) -> Seq<char> {
    match g {
        LatencyGrade::Good => "32"@,
        LatencyGrade::Slow => "33"@,
        LatencyGrade::Bad => "31"@,
    }
}

/// The text of a latency: its milliseconds, then ` ms`.
pub open spec fn latency_text(ms: u128) -> Seq<char> {
    decimal_of(ms as nat) + seq![' ', 'm', 's']
}

/// The line of a latency: its label in blue, then the latency in the color
/// of its grade, then a space.
pub fn render_latency(property: &str, ms: u128) -> (r: String)
    ensures
        exists|l: Seq<char>, v: Seq<char>|
            drawn(l, "34"@, label_of(property@))
            && drawn(v, grade_code(grade_of(ms)), latency_text(ms))
            && r@ == l + seq![' '] + v + seq![' ', '\n'],
{
    let mut label = String::new();
    push_text(&mut label, property);
    push_char(&mut label, ':');
    let mut text = decimal(ms);
    push_text(&mut text, " ms");
    proof {
        reveal_strlit(" ms");
        assert(text@ =~= latency_text(ms));
    }
    let painted_label = blue(label.as_str());
    let painted_text = match grade_latency(ms) {
        LatencyGrade::Good => green(text.as_str()),
        LatencyGrade::Slow => yellow(text.as_str()),
        LatencyGrade::Bad => red(text.as_str()),
    };
    let mut r = String::new();
    push_text(&mut r, painted_label.as_str());
    push_char(&mut r, ' ');
    push_text(&mut r, painted_text.as_str());
    push_char(&mut r, ' ');
    push_char(&mut r, '\n');
    assert(r@ =~= painted_label@ + seq![' '] + painted_text@ + seq![' ', '\n']);
    assert(drawn(painted_text@, grade_code(grade_of(ms)), latency_text(ms)));
    assert(label@ =~= label_of(property@));
    assert(drawn(painted_label@, "34"@, label_of(property@)));
    r
}

// ---------------------------------------------------------------------------
// Where a probe connects.
// ---------------------------------------------------------------------------

/// `c` is a decimal digit.
pub open spec fn is_digit(c: char) -> bool {
    '0' <= c <= '9'
}

/// The number of decimal digits `d` stand for.
pub open spec fn digits_value(d: Seq<char>) -> nat
    decreases d.len(),
{
    if d.len() == 0 {
        0
    } else {
        digits_value(d.drop_last()) * 10 + ((d.last() as int) - ('0' as int)) as nat
    }
}

/// The digits of a port number: the text, without one leading `+`.
pub open spec fn port_digits(s: Seq<char>) -> Seq<char> {
    if s.len() > 0 && s[0] == '+' {
        s.drop_first()
    } else {
        s
    }
}

/// The port number a text stands for, as a `u32` is read from text: an
/// optional `+`, then at least one decimal digit, and a value that fits.
pub open spec fn port_value(s: Seq<char>) -> Option<u32> {
    let d = port_digits(s);
    if d.len() > 0 && (forall|k: int| 0 <= k < d.len() ==> is_digit(#[trigger] d[k])) && digits_value(d)
        <= u32::MAX {
        Some(digits_value(d) as u32)
    } else {
        None
    }
}

proof fn lemma_digits_value_grows(d: Seq<char>, i: int)
    requires
        0 <= i <= d.len(),
        forall|k: int| 0 <= k < d.len() ==> is_digit(#[trigger] d[k]),
    ensures
        digits_value(d.take(i)) <= digits_value(d),
    decreases d.len() - i,
{
    if i < d.len() {
        lemma_digits_value_grows(d, i + 1);
        assert(d.take(i + 1).drop_last() =~= d.take(i));
        assert(is_digit(d[i]));
    } else {
        assert(d.take(i) =~= d);
    }
}

/// Reads a port number the way a `u32` is read from text.
pub fn parse_port(s: &str) -> (r: Option<u32>)
    ensures
        r == port_value(s@),
{
    let cs = crate::text::chars_of(s);
    let mut i: usize = 0;
    if cs.len() > 0 && cs[0] == '+' {
        i = 1;
    }
    let ghost d = port_digits(s@);
    assert(d =~= cs@.subrange(i as int, cs.len() as int));
    if i >= cs.len() {
        return None;
    }
    let start = i;
    let mut v: u64 = 0;
    while i < cs.len()
        invariant
            start <= i <= cs.len(),
            start < cs.len(),
            d == cs@.subrange(start as int, cs.len() as int),
            d == port_digits(s@),
            forall|k: int| 0 <= k < i - start ==> is_digit(#[trigger] d[k]),
            v == digits_value(d.take(i - start)),
            v <= u32::MAX,
        decreases cs.len() - i,
    {
        let c = cs[i];
        assert(c == d[i - start]);
        if c < '0' || c > '9' {
            assert(!is_digit(d[i - start]));
            return None;
        }
        let digit = (c as u64) - ('0' as u64);
        assert(d.take(i + 1 - start).drop_last() =~= d.take(i - start));
        assert(d.take(i + 1 - start).last() == c);
        v = v * 10 + digit;
        assert(v == digits_value(d.take(i + 1 - start)));
        if v > 4294967295 {
            proof {
                if forall|k: int| 0 <= k < d.len() ==> is_digit(#[trigger] d[k]) {
                    lemma_digits_value_grows(d, i + 1 - start);
                }
            }
            return None;
        }
        i += 1;
    }
    assert(d.take(i - start) =~= d);
    Some(v as u32)
}

/// Why a probe has nowhere to connect to.
#[derive(Debug, Clone, PartialEq, Eq)]
pub enum ProbeTargetError {
    /// `ssh -G` reported no host name.
    NoHostname,
    /// `ssh -G` reported no port.
    NoPort,
    /// The port `ssh -G` reported is not a number that fits a port.
    BadPort(String),
}

/// The first value `options` gives `key`, if it gives one.
pub open spec fn first_value(options: Map<Seq<char>, Seq<Seq<char>>>, key: Seq<char>) -> Option<Seq<char>> {
    if options.contains_key(key) && options[key].len() > 0 {
        Some(options[key][0])
    } else {
        None
    }
}

/// The first value `config` reports for `key`.
fn first_of(config: &HostConfig, key: &str) -> (r: Option<String>)
    ensures
        match r {
            Some(v) => first_value(config.options(), key@) == Some(v@),
            None => first_value(config.options(), key@) is None,
        },
{
    match config.get(key) {
        Some(vs) => if vs.len() > 0 {
            let v = vs[0].clone();
            assert(v@ == views(vs@)[0]);
            Some(v)
        } else {
            None
        },
        None => None,
    }
}

/// Where a probe connects: the first host name and the first port that
/// `config` reports, the port read as a number; else what is missing or
/// wrong, the host name checked first.
pub fn probe_target(config: &HostConfig) -> (r: Result<(String, u32), ProbeTargetError>)
    ensures
        ({
            let host = first_value(config.options(), "hostname"@);
            let port = first_value(config.options(), "port"@);
            match r {
                Ok((h, p)) => host == Some(h@) && (port matches Some(pv) && port_value(pv) == Some(p)),
                Err(ProbeTargetError::NoHostname) => host is None,
                Err(ProbeTargetError::NoPort) => host is Some && port is None,
                Err(ProbeTargetError::BadPort(v)) => host is Some && port == Some(v@) && port_value(v@) is None,
            }
        }),
{
    let host = match first_of(config, "hostname") {
        Some(h) => h,
        None => {
            return Err(ProbeTargetError::NoHostname);
        },
    };
    let port = match first_of(config, "port") {
        Some(p) => p,
        None => {
            return Err(ProbeTargetError::NoPort);
        },
    };
    match parse_port(port.as_str()) {
        Some(p) => Ok((host, p)),
        None => Err(ProbeTargetError::BadPort(port)),
    }
}

// ---------------------------------------------------------------------------
// What a line reads once its styling is taken out.
// ---------------------------------------------------------------------------

/// The first `m` at or after `i`, or the end of `s`.
pub open spec fn sequence_end(s: Seq<char>, i: int) -> int
    decreases s.len() - i,
{
    if 0 <= i < s.len() && s[i] != 'm' {
        sequence_end(s, i + 1)
    } else {
        i
    }
}

proof fn lemma_sequence_end(s: Seq<char>, i: int)
    requires
        0 <= i <= s.len(),
    ensures
        i <= sequence_end(s, i) <= s.len(),
    decreases s.len() - i,
{
    if i < s.len() && s[i] != 'm' {
        lemma_sequence_end(s, i + 1);
    }
}

/// `s` with every escape sequence taken out, each running from an escape
/// character to the next `m`.
pub open spec fn unstyled(s: Seq<char>) -> Seq<char>
    decreases s.len(),
{
    if s.len() == 0 {
        Seq::empty()
    } else if s[0] == '\x1b' {
        let e = sequence_end(s, 1);
        if 1 <= e < s.len() {
            unstyled(s.subrange(e + 1, s.len() as int))
        } else {
            Seq::empty()
        }
    } else {
        seq![s[0]] + unstyled(s.subrange(1, s.len() as int))
    }
}

/// No `m` in `code`, so the escape sequence of `code` ends at its own `m`.
pub open spec fn no_m(code: Seq<char>) -> bool {
    forall|k: int| 0 <= k < code.len() ==> code[k] != 'm'
}

proof fn lemma_unstyled_plain(t: Seq<char>, rest: Seq<char>)
    requires
        no_escape(t),
    ensures
        unstyled(t + rest) == t + unstyled(rest),
    decreases t.len(),
{
    if t.len() == 0 {
        assert(t + rest =~= rest);
        assert(t + unstyled(rest) =~= unstyled(rest));
    } else {
        let s = t + rest;
        assert(t[0] != '\x1b') by {
            if t[0] == '\x1b' {
                assert(t.contains('\x1b'));
            }
        }
        let t1 = t.subrange(1, t.len() as int);
        assert(!t1.contains('\x1b')) by {
            if t1.contains('\x1b') {
                let k = choose|k: int| 0 <= k < t1.len() && t1[k] == '\x1b';
                assert(t[k + 1] == '\x1b');
                assert(t.contains('\x1b'));
            }
        }
        assert(s.subrange(1, s.len() as int) =~= t1 + rest);
        lemma_unstyled_plain(t1, rest);
        assert(s[0] == t[0]);
        assert(t + unstyled(rest) =~= seq![t[0]] + (t1 + unstyled(rest)));
    }
}

proof fn lemma_sequence_end_at(s: Seq<char>, i: int, e: int)
    requires
        0 <= i <= e < s.len(),
        s[e] == 'm',
        forall|k: int| i <= k < e ==> s[k] != 'm',
    ensures
        sequence_end(s, i) == e,
    decreases e - i,
{
    if i < e {
        lemma_sequence_end_at(s, i + 1, e);
    }
}

proof fn lemma_unstyled_sgr(code: Seq<char>, rest: Seq<char>)
    requires
        no_m(code),
    ensures
        unstyled(sgr(code) + rest) == unstyled(rest),
{
    let s = sgr(code) + rest;
    let e: int = code.len() + 2int;
    assert(s[0] == '\x1b');
    assert(s[1] == '[');
    assert(s[e] == 'm');
    assert forall|k: int| 1 <= k < e implies s[k] != 'm' by {
        if k >= 2 {
            assert(s[k] == code[k - 2]);
        }
    }
    lemma_sequence_end_at(s, 1, e);
    assert(s.subrange(e + 1, s.len() as int) =~= rest);
}

proof fn lemma_unstyled_drawn(d: Seq<char>, code: Seq<char>, t: Seq<char>, rest: Seq<char>)
    requires
        drawn(d, code, t),
        no_escape(t),
        no_m(code),
    ensures
        unstyled(d + rest) == t + unstyled(rest),
{
    if d == t {
        lemma_unstyled_plain(t, rest);
    } else {
        let reset = seq!['0'];
        assert(no_m(reset));
        lemma_restyled_plain(t, code);
        assert(d + rest =~= sgr(code) + (t + (sgr(reset) + rest)));
        lemma_unstyled_sgr(code, t + (sgr(reset) + rest));
        lemma_unstyled_plain(t, sgr(reset) + rest);
        lemma_unstyled_sgr(reset, rest);
    }
}

proof fn lemma_codes_have_no_m()
    ensures
        no_m(label_code(LabelIntensity::Normal)),
        no_m(label_code(LabelIntensity::Bright)),
        no_m("1"@),
{
    reveal_strlit("34");
    reveal_strlit("1;96");
    reveal_strlit("1");
}

/// Once its escape sequences are taken out, the line of a property reads
/// its label, a space, its values and a newline, whatever its intensity.
pub proof fn lemma_field_line_unstyled(r: Seq<char>, label: Seq<char>, text: Seq<char>, intensity: LabelIntensity)
    requires
        no_escape(label),
        no_escape(text),
        field_line(r, label, text, intensity),
    ensures
        unstyled(r) == label + seq![' '] + text + seq!['\n'],
{
    lemma_codes_have_no_m();
    let (l, v) = choose|l: Seq<char>, v: Seq<char>|
        drawn(l, label_code(intensity), label)
        && (if intensity == LabelIntensity::Bright {
            drawn(v, "1"@, text)
        } else {
            v == text
        })
        && r == l + seq![' '] + v + seq!['\n'];
    let nl = seq!['\n'];
    assert(no_escape(seq![' '])) by {
        if seq![' '].contains('\x1b') {
            let k = choose|k: int| 0 <= k < 1 && seq![' '][k] == '\x1b';
        }
    }
    assert(no_escape(nl)) by {
        if nl.contains('\x1b') {
            let k = choose|k: int| 0 <= k < 1 && nl[k] == '\x1b';
        }
    }
    assert(r =~= l + (seq![' '] + (v + nl)));
    lemma_unstyled_drawn(l, label_code(intensity), label, seq![' '] + (v + nl));
    lemma_unstyled_plain(seq![' '], v + nl);
    if intensity == LabelIntensity::Bright {
        lemma_unstyled_drawn(v, "1"@, text, nl);
    } else {
        lemma_unstyled_plain(text, nl);
    }
    assert(nl =~= nl + Seq::<char>::empty());
    lemma_unstyled_plain(nl, Seq::<char>::empty());
    assert(unstyled(Seq::<char>::empty()) =~= Seq::<char>::empty());
    assert(unstyled(r) =~= label + seq![' '] + text + seq!['\n']);
}

/// The intensity of a property's line changes only its styling: the lines
/// at the two intensities read the same once escape sequences are taken
/// out.
pub proof fn lemma_intensity_changes_only_styling(
    normal: Seq<char>,
    bright: Seq<char>,
    label: Seq<char>,
    text: Seq<char>,
)
    requires
        no_escape(label),
        no_escape(text),
        field_line(normal, label, text, LabelIntensity::Normal),
        field_line(bright, label, text, LabelIntensity::Bright),
    ensures
        unstyled(normal) == unstyled(bright),
        unstyled(normal) == label + seq![' '] + text + seq!['\n'],
{
    lemma_field_line_unstyled(normal, label, text, LabelIntensity::Normal);
    lemma_field_line_unstyled(bright, label, text, LabelIntensity::Bright);
}

} // verus!
