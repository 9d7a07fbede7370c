//! Host aliases declared in an SSH config file.
//!
//! The rules follow `ssh_config(5)`: a `Host` keyword (in any case) may be
//! separated from its arguments by blanks and at most one `=`; the arguments
//! are split the way OpenSSH's `argv_split` splits them (blanks, which are
//! any whitespace, end a pattern unless quoted, `"` and `'` toggle quoting and are dropped, a few
//! backslash escapes are honoured, and a pattern that opens with `#` starts a
//! comment). Of the patterns found, those that are negated, contain a
//! wildcard or are empty are not aliases anyone can connect to.

use vstd::prelude::*;
use crate::text::{
    chars_of, lemma_contains_push, lemma_line_end, line_end, line_text, read_line, insert_all, insert_string, lemma_insert_all_contains, lemma_insert_all_no_duplicates, push_char, sorted_distinct,
    strictly_sorted, views,
};

verus! {

// ---------------------------------------------------------------------------
// The format, as spec functions over the characters of a line.
// ---------------------------------------------------------------------------

/// A blank separates words on a line: a character of Unicode's
/// `White_Space` property, as `char::is_whitespace` defines it (the ASCII
/// tab, line feed, vertical tab, form feed, carriage return and space, the
/// next line and no-break space characters, and the Unicode spaces and
/// separators).
pub open spec fn is_blank(c: char) -> bool {
    ||| '\t' <= c <= '\r'
    ||| c == ' '
    ||| c == '\u{85}'
    ||| c == '\u{a0}'
    ||| c == '\u{1680}'
    ||| '\u{2000}' <= c <= '\u{200a}'
    ||| c == '\u{2028}'
    ||| c == '\u{2029}'
    ||| c == '\u{202f}'
    ||| c == '\u{205f}'
    ||| c == '\u{3000}'
}

/// The first position at or after `i` that does not hold a blank.
pub open spec fn skip_blanks(l: Seq<char>, i: int) -> int
    decreases l.len() - i,
{
    if 0 <= i < l.len() && is_blank(l[i]) {
        skip_blanks(l, i + 1)
    } else {
        i
    }
}

/// The end of the keyword that starts at `i`: it runs up to a blank or `=`.
pub open spec fn keyword_end(l: Seq<char>, i: int) -> int
    decreases l.len() - i,
{
    if 0 <= i < l.len() && !is_blank(l[i]) && l[i] != '=' {
        keyword_end(l, i + 1)
    } else {
        i
    }
}

/// Where the keyword of a line starts.
pub open spec fn keyword_start(l: Seq<char>) -> int {
    skip_blanks(l, 0)
}

/// The keyword of a line.
pub open spec fn keyword(l: Seq<char>) -> Seq<char> {
    l.subrange(keyword_start(l), keyword_end(l, keyword_start(l)))
}

/// `k` spells `host`, in any mix of upper and lower case.
pub open spec fn is_host_keyword(k: Seq<char>) -> bool {
    &&& k.len() == 4
    &&& (k[0] == 'h' || k[0] == 'H')
    &&& (k[1] == 'o' || k[1] == 'O')
    &&& (k[2] == 's' || k[2] == 'S')
    &&& (k[3] == 't' || k[3] == 'T')
}

/// Where the arguments of a line start: after the keyword, blanks, at most
/// one `=` and blanks again.
pub open spec fn arguments_start(l: Seq<char>) -> int {
    let j = skip_blanks(l, keyword_end(l, keyword_start(l)));
    if 0 <= j < l.len() && l[j] == '=' {
        skip_blanks(l, j + 1)
    } else {
        j
    }
}

/// A backslash before `n` escapes it, given the quote that is open.
pub open spec fn is_escapable(n: char, quote: Option<char>) -> bool {
    n == '\'' || n == '"' || n == '\\' || (quote is None && n == ' ')
}

/// Reads the pattern that starts at `i` with `quote` open: the characters it
/// stands for, and where it ends. `None` when a quote is never closed.
pub open spec fn read_pattern(l: Seq<char>, i: int, quote: Option<char>) -> Option<(Seq<char>, int)>
    decreases l.len() - i,
{
    if i < 0 || i >= l.len() {
        if quote is None {
            Some((Seq::empty(), i))
        } else {
            None
        }
    } else {
        let c = l[i];
        if c == '\\' && i + 1 < l.len() && is_escapable(l[i + 1], quote) {
            prepend(l[i + 1], read_pattern(l, i + 2, quote))
        } else if quote is None && is_blank(c) {
            Some((Seq::empty(), i))
        } else if quote is None && (c == '"' || c == '\'') {
            read_pattern(l, i + 1, Some(c))
        } else if quote == Some(c) {
            read_pattern(l, i + 1, None)
        } else {
            prepend(c, read_pattern(l, i + 1, quote))
        }
    }
}

/// `c` in front of the pattern read by `r`.
pub open spec fn prepend(c: char, r: Option<(Seq<char>, int)>) -> Option<(Seq<char>, int)> {
    match r {
        Some((t, e)) => Some((seq![c] + t, e)),
        None => None,
    }
}

/// The patterns from position `i` to the end of the line or to a comment.
/// `None` when a quote is never closed.
pub open spec fn patterns_from(l: Seq<char>, i: int) -> Option<Seq<Seq<char>>>
    decreases l.len() - i,
{
    let j = skip_blanks(l, i);
    if j < 0 || j >= l.len() || l[j] == '#' {
        Some(Seq::empty())
    } else {
        match read_pattern(l, j, None) {
            None => None,
            Some((t, e)) => if i <= j < e <= l.len() {
                match patterns_from(l, e) {
                    None => None,
                    Some(ts) => Some(seq![t] + ts),
                }
            } else {
                None
            },
        }
    }
}

/// A pattern that names a host one can connect to: not empty, not negated,
/// without the wildcards `*` and `?`.
pub open spec fn is_alias(p: Seq<char>) -> bool {
    &&& p.len() > 0
    &&& p[0] != '!'
    &&& !p.contains('*')
    &&& !p.contains('?')
}

/// The patterns of `ps` that are aliases, in order.
pub open spec fn keep_aliases(ps: Seq<Seq<char>>) -> Seq<Seq<char>>
    decreases ps.len(),
{
    if ps.len() == 0 {
        Seq::empty()
    } else if is_alias(ps.last()) {
        keep_aliases(ps.drop_last()).push(ps.last())
    } else {
        keep_aliases(ps.drop_last())
    }
}

/// The aliases a single line declares, in order, repeats included. Only a
/// `Host` line declares any, and a line whose quotes do not close declares
/// none.
pub open spec fn line_aliases(l: Seq<char>) -> Seq<Seq<char>> {
    if !is_host_keyword(keyword(l)) {
        Seq::empty()
    } else {
        match patterns_from(l, arguments_start(l)) {
            None => Seq::empty(),
            Some(ps) => keep_aliases(ps),
        }
    }
}

/// The aliases declared by the lines from position `i` on.
pub open spec fn aliases_from(c: Seq<char>, i: int) -> Seq<Seq<char>>
    decreases c.len() - i,
{
    if i < 0 || i >= c.len() {
        Seq::empty()
    } else {
        let e = line_end(c, i);
        let here = line_aliases(line_text(c, i));
        if i <= e < c.len() {
            here + aliases_from(c, e + 1)
        } else {
            here
        }
    }
}

/// Every alias a config declares, line by line, repeats included.
pub open spec fn config_aliases(c: Seq<char>) -> Seq<Seq<char>> {
    aliases_from(c, 0)
}


// ---------------------------------------------------------------------------
// Facts about the definitions.
// ---------------------------------------------------------------------------

proof fn lemma_skip_blanks(l: Seq<char>, i: int)
    requires
        0 <= i <= l.len(),
    ensures
        i <= skip_blanks(l, i) <= l.len(),
        skip_blanks(l, i) < l.len() ==> !is_blank(l[skip_blanks(l, i)]),
    decreases l.len() - i,
{
    if i < l.len() && is_blank(l[i]) {
        lemma_skip_blanks(l, i + 1);
    }
}

proof fn lemma_keyword_end(l: Seq<char>, i: int)
    requires
        0 <= i <= l.len(),
    ensures
        i <= keyword_end(l, i) <= l.len(),
    decreases l.len() - i,
{
    if i < l.len() && !is_blank(l[i]) && l[i] != '=' {
        lemma_keyword_end(l, i + 1);
    }
}

proof fn lemma_read_pattern_end(l: Seq<char>, i: int, quote: Option<char>)
    requires
        0 <= i <= l.len(),
    ensures
        read_pattern(l, i, quote) matches Some((t, e)) ==> {
            &&& i <= e <= l.len()
            &&& (i < l.len() && !(quote is None && is_blank(l[i]))) ==> i < e
        },
    decreases l.len() - i,
{
    if i < l.len() {
        let c = l[i];
        if c == '\\' && i + 1 < l.len() && is_escapable(l[i + 1], quote) {
            lemma_read_pattern_end(l, i + 2, quote);
        } else if quote is None && is_blank(c) {
        } else if quote is None && (c == '"' || c == '\'') {
            lemma_read_pattern_end(l, i + 1, Some(c));
        } else if quote == Some(c) {
            lemma_read_pattern_end(l, i + 1, None);
        } else {
            lemma_read_pattern_end(l, i + 1, quote);
        }
    }
}

/// `keep_aliases` distributes over concatenation.
proof fn lemma_keep_aliases_push(ps: Seq<Seq<char>>, p: Seq<char>)
    ensures
        keep_aliases(ps.push(p)) == if is_alias(p) {
            keep_aliases(ps).push(p)
        } else {
            keep_aliases(ps)
        },
{
    assert(ps.push(p).drop_last() =~= ps);
}

/// Inserting a concatenation is inserting one part after the other.
pub proof fn lemma_insert_all_concat(acc: Seq<Seq<char>>, a: Seq<Seq<char>>, b: Seq<Seq<char>>)
    ensures
        insert_all(acc, a + b) == insert_all(insert_all(acc, a), b),
    decreases b.len(),
{
    if b.len() == 0 {
        assert(a + b =~= a);
    } else {
        assert((a + b).drop_last() =~= a + b.drop_last());
        assert((a + b).last() == b.last());
        lemma_insert_all_concat(acc, a, b.drop_last());
    }
}

// ---------------------------------------------------------------------------
// The executable reading of a config.
// ---------------------------------------------------------------------------

/// Whether `c` is a blank.
fn blank(c: char) -> (r: bool)
    ensures
        r == is_blank(c),
{
    ('\t' <= c && c <= '\r') || c == ' ' || c == '\u{85}' || c == '\u{a0}' || c == '\u{1680}' || ('\u{2000}'
        <= c && c <= '\u{200a}') || c == '\u{2028}' || c == '\u{2029}' || c == '\u{202f}' || c == '\u{205f}' || c
        == '\u{3000}'
}

fn skip_blanks_at(l: &Vec<char>, i: usize) -> (r: usize)
    requires
        i <= l.len(),
    ensures
        r == skip_blanks(l@, i as int),
        i <= r <= l.len(),
{
    let mut j = i;
    while j < l.len() && blank(l[j])
        invariant
            i <= j <= l.len(),
            skip_blanks(l@, j as int) == skip_blanks(l@, i as int),
        decreases l.len() - j,
    {
        j += 1;
    }
    j
}

fn keyword_end_at(l: &Vec<char>, i: usize) -> (r: usize)
    requires
        i <= l.len(),
    ensures
        r == keyword_end(l@, i as int),
        i <= r <= l.len(),
{
    let mut j = i;
    while j < l.len() && !blank(l[j]) && l[j] != '='
        invariant
            i <= j <= l.len(),
            keyword_end(l@, j as int) == keyword_end(l@, i as int),
        decreases l.len() - j,
    {
        j += 1;
    }
    j
}

/// The pattern read by `r`, with `p` in front of it.
pub open spec fn prefixed(p: Seq<char>, r: Option<(Seq<char>, int)>) -> Option<(Seq<char>, int)> {
    match r {
        Some((t, e)) => Some((p + t, e)),
        None => None,
    }
}

/// Reads the pattern that starts at `start` with no quote open.
fn read_pattern_at(l: &Vec<char>, start: usize) -> (r: Option<(String, usize)>)
    requires
        start <= l.len(),
    ensures
        match (r, read_pattern(l@, start as int, None)) {
            (Some((t, e)), Some((ts, es))) => t@ == ts && e == es,
            (None, None) => true,
            _ => false,
        },
{
    let mut tok = String::new();
    let mut i = start;
    let mut quote: Option<char> = None;
    loop
        invariant
            start <= i <= l.len(),
            read_pattern(l@, start as int, None) == prefixed(tok@, read_pattern(l@, i as int, quote)),
        decreases l.len() - i,
    {
        if i >= l.len() {
            assert(tok@ + Seq::<char>::empty() =~= tok@);
            if quote.is_none() {
                return Some((tok, i));
            } else {
                return None;
            }
        }
        let c = l[i];
        let ghost before = tok@;
        if c == '\\' && i + 1 < l.len() && (l[i + 1] == '\'' || l[i + 1] == '"' || l[i + 1] == '\\'
            || (quote.is_none() && l[i + 1] == ' ')) {
            push_char(&mut tok, l[i + 1]);
            proof {
                assert forall|t: Seq<char>| before + (seq![l@[i + 1]] + t) =~= tok@ + t by {}
            }
            i += 2;
        } else if quote.is_none() && blank(c) {
            assert(tok@ + Seq::<char>::empty() =~= tok@);
            return Some((tok, i));
        } else if quote.is_none() && (c == '"' || c == '\'') {
            quote = Some(c);
            i += 1;
        } else if quote == Some(c) {
            quote = None;
            i += 1;
        } else {
            push_char(&mut tok, c);
            proof {
                assert forall|t: Seq<char>| before + (seq![c] + t) =~= tok@ + t by {}
            }
            i += 1;
        }
    }
}

/// The patterns read by `r`, with `p` in front of them.
pub open spec fn prefixed_all(p: Seq<Seq<char>>, r: Option<Seq<Seq<char>>>) -> Option<Seq<Seq<char>>> {
    match r {
        Some(ts) => Some(p + ts),
        None => None,
    }
}

/// Reads the patterns from `start` to the end of the line or a comment.
fn patterns_at(l: &Vec<char>, start: usize) -> (r: Option<Vec<String>>)
    requires
        start <= l.len(),
    ensures
        match (r, patterns_from(l@, start as int)) {
            (Some(ps), Some(ss)) => views(ps@) == ss,
            (None, None) => true,
            _ => false,
        },
{
    let mut acc: Vec<String> = Vec::new();
    let mut i = start;
    loop
        invariant
            start <= i <= l.len(),
            patterns_from(l@, start as int) == prefixed_all(views(acc@), patterns_from(l@, i as int)),
        decreases l.len() - i,
    {
        let j = skip_blanks_at(l, i);
        if j >= l.len() || l[j] == '#' {
            assert(views(acc@) + Seq::<Seq<char>>::empty() =~= views(acc@));
            return Some(acc);
        }
        proof {
            lemma_skip_blanks(l@, i as int);
            lemma_read_pattern_end(l@, j as int, None);
        }
        match read_pattern_at(l, j) {
            None => {
                return None;
            },
            Some((t, e)) => {
                let ghost before = views(acc@);
                acc.push(t);
                proof {
                    assert(views(acc@) =~= before.push(t@));
                    assert forall|ts: Seq<Seq<char>>| before + (seq![t@] + ts) =~= views(acc@) + ts by {}
                }
                i = e;
            },
        }
    }
}

/// The aliases among `ps`, in order.
fn keep_alias_strings(ps: Vec<String>) -> (r: Vec<String>)
    ensures
        views(r@) == keep_aliases(views(ps@)),
{
    let mut out: Vec<String> = Vec::new();
    let mut k: usize = 0;
    while k < ps.len()
        invariant
            k <= ps.len(),
            views(out@) == keep_aliases(views(ps@).take(k as int)),
        decreases ps.len() - k,
    {
        let p = &ps[k];
        let cs = chars_of(p.as_str());
        proof {
            assert(views(ps@).take(k + 1) =~= views(ps@).take(k as int).push(p@));
            lemma_keep_aliases_push(views(ps@).take(k as int), p@);
        }
        let mut ok = cs.len() > 0 && cs[0] != '!';
        let mut m: usize = 0;
        while m < cs.len()
            invariant
                m <= cs.len(),
                cs@ == p@,
                ok == (cs@.len() > 0 && cs@[0] != '!' && !cs@.take(m as int).contains('*')
                    && !cs@.take(m as int).contains('?')),
            decreases cs.len() - m,
        {
            proof {
                assert(cs@.take(m + 1) =~= cs@.take(m as int).push(cs@[m as int]));
                lemma_contains_push(cs@.take(m as int), cs@[m as int], '*');
                lemma_contains_push(cs@.take(m as int), cs@[m as int], '?');
            }
            if cs[m] == '*' || cs[m] == '?' {
                ok = false;
            }
            m += 1;
        }
        assert(cs@.take(m as int) =~= cs@);
        let ghost before = views(out@);
        if ok {
            out.push(p.clone());
            assert(views(out@) =~= before.push(p@));
        }
        k += 1;
    }
    assert(views(ps@).take(k as int) =~= views(ps@));
    out
}

/// Whether `l[from..to]` spells `host` in any case.
fn is_host_keyword_at(l: &Vec<char>, from: usize, to: usize) -> (r: bool)
    requires
        from <= to <= l.len(),
    ensures
        r == is_host_keyword(l@.subrange(from as int, to as int)),
{
    if to - from != 4 {
        return false;
    }
    (l[from] == 'h' || l[from] == 'H') && (l[from + 1] == 'o' || l[from + 1] == 'O')
        && (l[from + 2] == 's' || l[from + 2] == 'S') && (l[from + 3] == 't' || l[from + 3] == 'T')
}

/// The aliases one line declares, in order, repeats included.
pub fn line_alias_list(l: &Vec<char>) -> (r: Vec<String>)
    ensures
        views(r@) == line_aliases(l@),
{
    let k0 = skip_blanks_at(l, 0);
    let k1 = keyword_end_at(l, k0);
    if !is_host_keyword_at(l, k0, k1) {
        let r: Vec<String> = Vec::new();
        assert(views(r@) =~= Seq::<Seq<char>>::empty());
        return r;
    }
    let mut j = skip_blanks_at(l, k1);
    if j < l.len() && l[j] == '=' {
        j = skip_blanks_at(l, j + 1);
    }
    match patterns_at(l, j) {
        None => {
            let r: Vec<String> = Vec::new();
            assert(views(r@) =~= Seq::<Seq<char>>::empty());
            r
        },
        Some(ps) => keep_alias_strings(ps),
    }
}

/// Adds every host alias that `content` declares to `hosts`, each once: an
/// alias already in `hosts` is not added again, and what `hosts` held stays
/// where it was.
pub fn extract_hosts(hosts: &mut Vec<String>, content: &str)
    ensures
        views(final(hosts)@) == insert_all(views(old(hosts)@), config_aliases(content@)),
        views(old(hosts)@).no_duplicates() ==> views(final(hosts)@).no_duplicates(),
        final(hosts)@.len() >= old(hosts)@.len(),
        forall|j: int| 0 <= j < old(hosts)@.len() ==> final(hosts)@[j] == old(hosts)@[j],
{
    let cs = chars_of(content);
    let ghost c = cs@;
    let ghost mut done: Seq<Seq<char>> = Seq::empty();
    let mut i: usize = 0;
    assert(insert_all(views(old(hosts)@), Seq::<Seq<char>>::empty()) == views(old(hosts)@));
    assert(Seq::<Seq<char>>::empty() + aliases_from(c, 0) =~= aliases_from(c, 0));
    while i < cs.len()
        invariant
            c == cs@,
            c == content@,
            i <= cs.len(),
            config_aliases(c) == done + aliases_from(c, i as int),
            views(hosts@) == insert_all(views(old(hosts)@), done),
            hosts@.len() >= old(hosts)@.len(),
            forall|j: int| 0 <= j < old(hosts)@.len() ==> hosts@[j] == old(hosts)@[j],
        decreases cs.len() - i,
    {
        let (line, e) = read_line(&cs, i);
        let here = line_alias_list(&line);
        let ghost here_v = views(here@);
        let ghost start = views(hosts@);
        let mut k: usize = 0;
        while k < here.len()
            invariant
                k <= here.len(),
                here_v == views(here@),
                views(hosts@) == insert_all(start, here_v.take(k as int)),
                hosts@.len() >= old(hosts)@.len(),
                forall|j: int| 0 <= j < old(hosts)@.len() ==> hosts@[j] == old(hosts)@[j],
            decreases here.len() - k,
        {
            let ghost mid = views(hosts@);
            insert_string(hosts, here[k].clone());
            proof {
                assert(here_v.take(k + 1).drop_last() =~= here_v.take(k as int));
                assert(insert_all(mid, seq![here_v[k as int]].drop_last()) == mid) by {
                    assert(seq![here_v[k as int]].drop_last() =~= Seq::<Seq<char>>::empty());
                }
            }
            k += 1;
        }
        proof {
            assert(here_v.take(k as int) =~= here_v);
            lemma_insert_all_concat(views(old(hosts)@), done, here_v);
            done = done + here_v;
        }
        proof {
            lemma_line_end(c, i as int);
        }
        if e < cs.len() {
            assert(config_aliases(c) =~= done + aliases_from(c, e + 1));
            i = e + 1;
        } else {
            assert(config_aliases(c) =~= done + aliases_from(c, e as int));
            i = e;
        }
    }
    assert(done + aliases_from(c, i as int) =~= done);
    proof {
        if views(old(hosts)@).no_duplicates() {
            lemma_insert_all_no_duplicates(views(old(hosts)@), config_aliases(c));
        }
    }
}


/// The host aliases of a config file, each once, in increasing order: what
/// the picker offers.
pub fn hosts_from_config(content: &str) -> (r: Vec<String>)
    ensures
        strictly_sorted(views(r@)),
        forall|x: Seq<char>| views(r@).contains(x) == config_aliases(content@).contains(x),
{
    let mut hosts: Vec<String> = Vec::new();
    assert(views(hosts@) =~= Seq::<Seq<char>>::empty());
    extract_hosts(&mut hosts, content);
    assert forall|x: Seq<char>| views(hosts@).contains(x) == config_aliases(content@).contains(x) by {
        lemma_insert_all_contains(Seq::empty(), config_aliases(content@), x);
    }
    sorted_distinct(&hosts)
}


// ---------------------------------------------------------------------------
// Laws.
// ---------------------------------------------------------------------------

proof fn lemma_keep_aliases_elements(ps: Seq<Seq<char>>)
    ensures
        forall|k: int|
            0 <= k < keep_aliases(ps).len() ==> is_alias(#[trigger] keep_aliases(ps)[k])
                && ps.contains(keep_aliases(ps)[k]),
    decreases ps.len(),
{
    if ps.len() > 0 {
        lemma_keep_aliases_elements(ps.drop_last());
        let rest = keep_aliases(ps.drop_last());
        assert forall|k: int| 0 <= k < rest.len() implies ps.contains(#[trigger] rest[k]) by {
            let w = choose|w: int| 0 <= w < ps.drop_last().len() && ps.drop_last()[w] == rest[k];
            assert(ps[w] == rest[k]);
        }
        assert(ps[ps.len() - 1] == ps.last());
    }
}

/// Some line of `c` declares `a`.
spec fn declared_by_a_line(c: Seq<char>, a: Seq<char>) -> bool {
    exists|s: int| 0 <= s < c.len() && #[trigger] line_aliases(line_text(c, s)).contains(a)
}

proof fn lemma_aliases_from_elements(c: Seq<char>, i: int)
    ensures
        forall|k: int|
            0 <= k < aliases_from(c, i).len() ==> declared_by_a_line(c, #[trigger] aliases_from(c, i)[k]),
    decreases c.len() - i,
{
    if 0 <= i < c.len() {
        let e = line_end(c, i);
        lemma_line_end(c, i);
        let here = line_aliases(line_text(c, i));
        if e < c.len() {
            lemma_aliases_from_elements(c, e + 1);
            let rest = aliases_from(c, e + 1);
            assert forall|k: int| 0 <= k < aliases_from(c, i).len() implies declared_by_a_line(
                c,
                #[trigger] aliases_from(c, i)[k],
            ) by {
                if k < here.len() {
                    assert(here[k] == aliases_from(c, i)[k]);
                    assert(line_aliases(line_text(c, i)).contains(aliases_from(c, i)[k]));
                } else {
                    assert(rest[k - here.len()] == aliases_from(c, i)[k]);
                }
            }
        } else {
            assert forall|k: int| 0 <= k < aliases_from(c, i).len() implies declared_by_a_line(
                c,
                #[trigger] aliases_from(c, i)[k],
            ) by {
                assert(here[k] == aliases_from(c, i)[k]);
                assert(line_aliases(line_text(c, i)).contains(aliases_from(c, i)[k]));
            }
        }
    }
}

/// Every alias a config declares can be handed to `ssh`: it is not empty,
/// not a negated pattern, and holds neither of the wildcards `*` and `?`.
pub proof fn lemma_every_alias_is_usable(c: Seq<char>)
    ensures
        forall|k: int| 0 <= k < config_aliases(c).len() ==> is_alias(#[trigger] config_aliases(c)[k]),
{
    lemma_aliases_from_elements(c, 0);
    assert forall|k: int| 0 <= k < config_aliases(c).len() implies is_alias(
        #[trigger] config_aliases(c)[k],
    ) by {
        let a = config_aliases(c)[k];
        assert(declared_by_a_line(c, a));
        let s = choose|s: int| 0 <= s < c.len() && #[trigger] line_aliases(line_text(c, s)).contains(a);
        let l = line_text(c, s);
        if is_host_keyword(keyword(l)) {
            if let Some(ps) = patterns_from(l, arguments_start(l)) {
                lemma_keep_aliases_elements(ps);
                let w = choose|w: int| 0 <= w < keep_aliases(ps).len() && keep_aliases(ps)[w] == a;
            }
        }
    }
}

/// No character of `c` quotes or escapes anything.
pub open spec fn has_no_quoting(c: Seq<char>) -> bool {
    forall|k: int| 0 <= k < c.len() ==> c[k] != '"' && c[k] != '\'' && c[k] != '\\'
}

/// A pattern written without quotes: no blank in it, and no `#` opening it.
pub open spec fn is_bare_word(p: Seq<char>) -> bool {
    &&& forall|k: int| 0 <= k < p.len() ==> !is_blank(#[trigger] p[k])
    &&& p.len() > 0 ==> p[0] != '#'
}

proof fn lemma_read_unquoted(l: Seq<char>, i: int)
    requires
        has_no_quoting(l),
        0 <= i <= l.len(),
    ensures
        read_pattern(l, i, None) matches Some((t, e)) && i <= e <= l.len() && t =~= l.subrange(i, e)
            && forall|k: int| i <= k < e ==> !is_blank(#[trigger] l[k]),
    decreases l.len() - i,
{
    if i < l.len() && !is_blank(l[i]) {
        lemma_read_unquoted(l, i + 1);
    }
}

proof fn lemma_patterns_unquoted(l: Seq<char>, i: int)
    requires
        has_no_quoting(l),
        0 <= i <= l.len(),
    ensures
        patterns_from(l, i) matches Some(ps) && forall|k: int|
            0 <= k < ps.len() ==> is_bare_word(#[trigger] ps[k]),
    decreases l.len() - i,
{
    let j = skip_blanks(l, i);
    lemma_skip_blanks(l, i);
    if j < l.len() && l[j] != '#' {
        lemma_read_unquoted(l, j);
        lemma_read_pattern_end(l, j, None);
        let (t, e) = read_pattern(l, j, None)->0;
        lemma_patterns_unquoted(l, e);
        let ts = patterns_from(l, e)->0;
        assert(t[0] == l[j]);
        assert forall|k: int| 0 <= k < t.len() implies !is_blank(#[trigger] t[k]) by {
            assert(t[k] == l[j + k]);
        }
        assert forall|k: int| 0 <= k < (seq![t] + ts).len() implies is_bare_word(
            #[trigger] (seq![t] + ts)[k],
        ) by {
            if k > 0 {
                assert((seq![t] + ts)[k] == ts[k - 1]);
            }
        }
    }
}

/// In a config that quotes and escapes nothing, every alias is a single
/// word: it holds no blank and does not open with `#`.
pub proof fn lemma_unquoted_aliases_are_words(c: Seq<char>)
    requires
        has_no_quoting(c),
    ensures
        forall|k: int| 0 <= k < config_aliases(c).len() ==> is_bare_word(#[trigger] config_aliases(c)[k]),
{
    lemma_aliases_from_elements(c, 0);
    assert forall|k: int| 0 <= k < config_aliases(c).len() implies is_bare_word(
        #[trigger] config_aliases(c)[k],
    ) by {
        let a = config_aliases(c)[k];
        assert(declared_by_a_line(c, a));
        let s = choose|s: int| 0 <= s < c.len() && #[trigger] line_aliases(line_text(c, s)).contains(a);
        let l = line_text(c, s);
        assert(has_no_quoting(l)) by {
            lemma_line_end(c, s);
            assert forall|k: int| 0 <= k < l.len() implies l[k] != '"' && l[k] != '\'' && l[k] != '\\' by {
                assert(l[k] == c[s + k]);
            }
        }
        if is_host_keyword(keyword(l)) {
            lemma_skip_blanks(l, 0);
            lemma_keyword_end(l, keyword_start(l));
            lemma_skip_blanks(l, keyword_end(l, keyword_start(l)));
            let j = skip_blanks(l, keyword_end(l, keyword_start(l)));
            if 0 <= j < l.len() && l[j] == '=' {
                lemma_skip_blanks(l, j + 1);
            }
            lemma_patterns_unquoted(l, arguments_start(l));
            let ps = patterns_from(l, arguments_start(l))->0;
            lemma_keep_aliases_elements(ps);
            let w = choose|w: int| 0 <= w < keep_aliases(ps).len() && keep_aliases(ps)[w] == a;
            let v = choose|v: int| 0 <= v < ps.len() && ps[v] == keep_aliases(ps)[w];
        }
    }
}


/// `l1` and `l2` have the same length and agree from position `i` on.
pub open spec fn agree_from(l1: Seq<char>, l2: Seq<char>, i: int) -> bool {
    &&& l1.len() == l2.len()
    &&& forall|k: int| i <= k < l1.len() ==> l1[k] == l2[k]
}

proof fn lemma_frame_skip(l1: Seq<char>, l2: Seq<char>, i: int)
    requires
        agree_from(l1, l2, i),
        0 <= i,
    ensures
        skip_blanks(l1, i) == skip_blanks(l2, i),
        keyword_end(l1, i) == keyword_end(l2, i),
    decreases l1.len() - i,
{
    if i < l1.len() {
        lemma_frame_skip(l1, l2, i + 1);
    }
}

proof fn lemma_frame_read(l1: Seq<char>, l2: Seq<char>, i: int, quote: Option<char>)
    requires
        agree_from(l1, l2, i),
        0 <= i,
    ensures
        read_pattern(l1, i, quote) == read_pattern(l2, i, quote),
    decreases l1.len() - i,
{
    if i < l1.len() {
        let c = l1[i];
        if c == '\\' && i + 1 < l1.len() && is_escapable(l1[i + 1], quote) {
            lemma_frame_read(l1, l2, i + 2, quote);
        } else if quote is None && is_blank(c) {
        } else if quote is None && (c == '"' || c == '\'') {
            lemma_frame_read(l1, l2, i + 1, Some(c));
        } else if quote == Some(c) {
            lemma_frame_read(l1, l2, i + 1, None);
        } else {
            lemma_frame_read(l1, l2, i + 1, quote);
        }
    }
}

proof fn lemma_frame_patterns(l1: Seq<char>, l2: Seq<char>, i: int)
    requires
        agree_from(l1, l2, i),
        0 <= i,
    ensures
        patterns_from(l1, i) == patterns_from(l2, i),
    decreases l1.len() - i,
{
    lemma_frame_skip(l1, l2, i);
    let j = skip_blanks(l1, i);
    if i <= l1.len() {
        lemma_skip_blanks(l1, i);
    }
    if 0 <= j < l1.len() {
        assert(l1[j] == l2[j]);
    }
    if 0 <= j < l1.len() && l1[j] != '#' {
        lemma_frame_read(l1, l2, j, None);
        if let Some((t, e)) = read_pattern(l1, j, None) {
            if i <= j < e <= l1.len() {
                lemma_frame_patterns(l1, l2, e);
            }
        }
    }
}

/// The keyword `Host` is case-insensitive: whichever way it is spelled, a
/// line declares the same aliases.
pub proof fn lemma_keyword_case_does_not_matter(k1: Seq<char>, k2: Seq<char>, rest: Seq<char>)
    requires
        is_host_keyword(k1),
        is_host_keyword(k2),
    ensures
        line_aliases(k1 + rest) == line_aliases(k2 + rest),
{
    let l1 = k1 + rest;
    let l2 = k2 + rest;
    assert(agree_from(l1, l2, 4)) by {
        assert forall|k: int| 4 <= k < l1.len() implies l1[k] == l2[k] by {
            assert(l1[k] == rest[k - 4]);
            assert(l2[k] == rest[k - 4]);
        }
    }
    assert(skip_blanks(l1, 0) == 0);
    assert(skip_blanks(l2, 0) == 0);
    assert(keyword_end(l1, 0) == keyword_end(l1, 4)) by {
        assert(keyword_end(l1, 3) == keyword_end(l1, 4));
        assert(keyword_end(l1, 2) == keyword_end(l1, 3));
        assert(keyword_end(l1, 1) == keyword_end(l1, 2));
    }
    assert(keyword_end(l2, 0) == keyword_end(l2, 4)) by {
        assert(keyword_end(l2, 3) == keyword_end(l2, 4));
        assert(keyword_end(l2, 2) == keyword_end(l2, 3));
        assert(keyword_end(l2, 1) == keyword_end(l2, 2));
    }
    lemma_frame_skip(l1, l2, 4);
    lemma_keyword_end(l1, 4);
    let e = keyword_end(l1, 4);
    if e == 4 {
        assert(keyword(l1) =~= k1);
        assert(keyword(l2) =~= k2);
        lemma_frame_skip(l1, l2, e);
        lemma_skip_blanks(l1, e);
        let j = skip_blanks(l1, e);
        if 0 <= j < l1.len() && l1[j] == '=' {
            lemma_frame_skip(l1, l2, j + 1);
            lemma_skip_blanks(l1, j + 1);
        }
        assert(arguments_start(l1) == arguments_start(l2));
        lemma_frame_patterns(l1, l2, arguments_start(l1));
    } else {
        assert(keyword(l1).len() > 4);
        assert(keyword(l2).len() > 4);
    }
}


// ---------------------------------------------------------------------------
// Lines are read one by one.
// ---------------------------------------------------------------------------

proof fn lemma_skip_blanks_cr(l: Seq<char>, i: int)
    requires
        0 <= i <= l.len(),
    ensures
        skip_blanks(l.push('\r'), i) == if skip_blanks(l, i) == l.len() {
            l.len() + 1int
        } else {
            skip_blanks(l, i)
        },
    decreases l.len() - i,
{
    let l2 = l.push('\r');
    if i < l.len() {
        assert(l2[i] == l[i]);
        if is_blank(l[i]) {
            lemma_skip_blanks_cr(l, i + 1);
        }
    } else {
        assert(l2[i] == '\r');
        assert(skip_blanks(l2, i + 1) == i + 1);
    }
}

proof fn lemma_keyword_end_cr(l: Seq<char>, i: int)
    requires
        0 <= i <= l.len(),
    ensures
        keyword_end(l.push('\r'), i) == keyword_end(l, i),
    decreases l.len() - i,
{
    let l2 = l.push('\r');
    if i < l.len() {
        assert(l2[i] == l[i]);
        if !is_blank(l[i]) && l[i] != '=' {
            lemma_keyword_end_cr(l, i + 1);
        }
    } else {
        assert(l2[i] == '\r');
    }
}

proof fn lemma_read_pattern_cr(l: Seq<char>, i: int, quote: Option<char>)
    requires
        0 <= i <= l.len(),
        quote != Some('\r'),
    ensures
        read_pattern(l.push('\r'), i, quote) == read_pattern(l, i, quote),
    decreases l.len() - i,
{
    let l2 = l.push('\r');
    if i < l.len() {
        let c = l[i];
        assert(l2[i] == c);
        if i + 1 < l.len() {
            assert(l2[i + 1] == l[i + 1]);
        } else {
            assert(l2[i + 1] == '\r');
        }
        if c == '\\' && i + 1 < l.len() && is_escapable(l[i + 1], quote) {
            lemma_read_pattern_cr(l, i + 2, quote);
        } else if quote is None && is_blank(c) {
        } else if quote is None && (c == '"' || c == '\'') {
            lemma_read_pattern_cr(l, i + 1, Some(c));
        } else if quote == Some(c) {
            lemma_read_pattern_cr(l, i + 1, None);
        } else {
            lemma_read_pattern_cr(l, i + 1, quote);
        }
    } else {
        assert(l2[i] == '\r');
        if quote is Some {
            assert(read_pattern(l2, i + 1, quote) is None);
        }
    }
}

proof fn lemma_patterns_cr(l: Seq<char>, i: int)
    requires
        0 <= i <= l.len(),
    ensures
        patterns_from(l.push('\r'), i) == patterns_from(l, i),
    decreases l.len() - i,
{
    let l2 = l.push('\r');
    lemma_skip_blanks(l, i);
    lemma_skip_blanks_cr(l, i);
    let j = skip_blanks(l, i);
    if j < l.len() {
        assert(l2[j] == l[j]);
        if l[j] != '#' {
            lemma_read_pattern_cr(l, j, None);
            lemma_read_pattern_end(l, j, None);
            if let Some((t, e)) = read_pattern(l, j, None) {
                if i <= j < e {
                    lemma_patterns_cr(l, e);
                }
            }
        }
    }
}

/// A carriage return at the end of a line changes nothing it declares.
pub proof fn lemma_trailing_cr_is_ignored(l: Seq<char>)
    ensures
        line_aliases(l.push('\r')) == line_aliases(l),
{
    let l2 = l.push('\r');
    lemma_skip_blanks(l, 0);
    lemma_skip_blanks_cr(l, 0);
    let ks = skip_blanks(l, 0);
    if ks == l.len() {
        assert(keyword(l2).len() == 0);
        assert(keyword(l).len() == 0);
    } else {
        lemma_keyword_end_cr(l, ks);
        lemma_keyword_end(l, ks);
        let ke = keyword_end(l, ks);
        assert(keyword(l2) =~= keyword(l));
        lemma_skip_blanks(l, ke);
        lemma_skip_blanks_cr(l, ke);
        let j = skip_blanks(l, ke);
        if j < l.len() {
            assert(l2[j] == l[j]);
            if l[j] == '=' {
                lemma_skip_blanks(l, j + 1);
                lemma_skip_blanks_cr(l, j + 1);
            }
        }
        let a = arguments_start(l);
        if a == l.len() {
            assert(arguments_start(l2) == l.len() + 1int);
            assert(patterns_from(l2, l.len() + 1int) == Some(Seq::<Seq<char>>::empty()));
        } else {
            assert(arguments_start(l2) == a);
            lemma_patterns_cr(l, a);
        }
    }
}

proof fn lemma_line_end_before_newline(a: Seq<char>, b: Seq<char>, i: int)
    requires
        0 <= i <= a.len(),
    ensures
        line_end(a + seq!['\n'] + b, i) == line_end(a, i),
    decreases a.len() - i,
{
    let c = a + seq!['\n'] + b;
    if i < a.len() {
        assert(c[i] == a[i]);
        if a[i] != '\n' {
            lemma_line_end_before_newline(a, b, i + 1);
        }
    } else {
        assert(c[i] == '\n');
    }
}

proof fn lemma_line_end_shift(p: Seq<char>, b: Seq<char>, j: int)
    requires
        0 <= j <= b.len(),
    ensures
        line_end(p + b, p.len() + j) == p.len() + line_end(b, j),
    decreases b.len() - j,
{
    let c = p + b;
    if j < b.len() {
        assert(c[p.len() + j] == b[j]);
        if b[j] != '\n' {
            lemma_line_end_shift(p, b, j + 1);
        }
    }
}

proof fn lemma_aliases_shift(p: Seq<char>, b: Seq<char>, j: int)
    requires
        0 <= j <= b.len(),
    ensures
        aliases_from(p + b, p.len() + j) == aliases_from(b, j),
    decreases b.len() - j,
{
    let c = p + b;
    if j < b.len() {
        lemma_line_end_shift(p, b, j);
        lemma_line_end(b, j);
        let e = line_end(b, j);
        assert(c.subrange(p.len() + j, p.len() + e) =~= b.subrange(j, e));
        assert(line_text(c, p.len() + j) == line_text(b, j));
        if e < b.len() {
            lemma_aliases_shift(p, b, e + 1);
        }
    }
}

proof fn lemma_aliases_before_newline(a: Seq<char>, b: Seq<char>, i: int)
    requires
        0 <= i <= a.len(),
    ensures
        aliases_from(a + seq!['\n'] + b, i) == aliases_from(a, i) + aliases_from(b, 0),
    decreases a.len() - i,
{
    let c = a + seq!['\n'] + b;
    let p = a + seq!['\n'];
    assert(c == p + b);
    lemma_aliases_shift(p, b, 0);
    assert(aliases_from(c, a.len() + 1int) == aliases_from(b, 0));
    lemma_line_end_before_newline(a, b, i);
    lemma_line_end(a, i);
    let e = line_end(a, i);
    if i == a.len() {
        assert(c[i] == '\n');
        assert(line_text(c, i) =~= Seq::<char>::empty());
        assert(line_aliases(Seq::<char>::empty()) =~= Seq::<Seq<char>>::empty());
        assert(aliases_from(a, i) =~= Seq::<Seq<char>>::empty());
        assert(aliases_from(c, i) =~= aliases_from(a, i) + aliases_from(b, 0));
    } else {
        let here = line_aliases(line_text(a, i));
        assert(c.subrange(i, e) =~= a.subrange(i, e));
        if e < a.len() {
            assert(line_text(c, i) == line_text(a, i));
            lemma_aliases_before_newline(a, b, e + 1);
            assert(aliases_from(c, i) =~= aliases_from(a, i) + aliases_from(b, 0));
        } else {
            let x = a.subrange(i, e);
            assert(line_text(a, i) == x);
            if x.len() > 0 && x.last() == '\r' {
                assert(x =~= x.drop_last().push('\r'));
                lemma_trailing_cr_is_ignored(x.drop_last());
            }
            assert(line_aliases(line_text(c, i)) == here);
            assert(aliases_from(c, i) =~= aliases_from(a, i) + aliases_from(b, 0));
        }
    }
}

/// Lines are independent: two texts joined by a newline declare the
/// aliases of the first, then those of the second.
pub proof fn lemma_lines_are_independent(a: Seq<char>, b: Seq<char>)
    ensures
        config_aliases(a + seq!['\n'] + b) == config_aliases(a) + config_aliases(b),
{
    lemma_aliases_before_newline(a, b, 0);
}

// ---------------------------------------------------------------------------
// Plain words are aliases.
// ---------------------------------------------------------------------------

/// A word written plainly: not empty, with no blank, quote, backslash or
/// wildcard in it, and opening with none of `!`, `#` and `=`.
pub open spec fn plain_word(w: Seq<char>) -> bool {
    &&& w.len() > 0
    &&& forall|k: int|
        0 <= k < w.len() ==> !is_blank(#[trigger] w[k]) && w[k] != '"' && w[k] != '\'' && w[k] != '\\'
            && w[k] != '*' && w[k] != '?'
    &&& w[0] != '!'
    &&& w[0] != '#'
    &&& w[0] != '='
}

proof fn lemma_read_to_end(l: Seq<char>, i: int)
    requires
        has_no_quoting(l),
        0 <= i <= l.len(),
        forall|k: int| i <= k < l.len() ==> !is_blank(#[trigger] l[k]),
    ensures
        read_pattern(l, i, None) == Some((l.subrange(i, l.len() as int), l.len() as int)),
    decreases l.len() - i,
{
    if i < l.len() {
        lemma_read_to_end(l, i + 1);
        assert(seq![l[i]] + l.subrange(i + 1, l.len() as int) =~= l.subrange(i, l.len() as int));
    } else {
        assert(l.subrange(i, l.len() as int) =~= Seq::<char>::empty());
    }
}

/// Every plain word on a `Host` line is an alias, whatever its length:
/// `Host w` declares `w` and nothing else.
pub proof fn lemma_plain_word_is_an_alias(w: Seq<char>)
    requires
        plain_word(w),
    ensures
        line_aliases("Host "@ + w) == seq![w],
{
    reveal_strlit("Host ");
    let l = "Host "@ + w;
    let n = l.len() as int;
    assert(l[0] == 'H' && l[1] == 'o' && l[2] == 's' && l[3] == 't' && l[4] == ' ');
    assert forall|k: int| 5 <= k < n implies !is_blank(#[trigger] l[k]) && l[k] != '"' && l[k] != '\''
        && l[k] != '\\' by {
        assert(l[k] == w[k - 5]);
    }
    assert(has_no_quoting(l)) by {
        assert forall|k: int| 0 <= k < n implies l[k] != '"' && l[k] != '\'' && l[k] != '\\' by {
            if k >= 5 {
                assert(l[k] == w[k - 5]);
            }
        }
    }
    assert(l[5] == w[0]);
    assert(skip_blanks(l, 0) == 0);
    assert(keyword_end(l, 4) == 4);
    assert(keyword_end(l, 3) == 4);
    assert(keyword_end(l, 2) == 4);
    assert(keyword_end(l, 1) == 4);
    assert(keyword_end(l, 0) == 4);
    assert(keyword(l) =~= l.subrange(0, 4));
    assert(is_host_keyword(keyword(l)));
    assert(skip_blanks(l, 5) == 5);
    assert(skip_blanks(l, 4) == 5);
    assert(arguments_start(l) == 5);
    lemma_read_to_end(l, 5);
    assert(l.subrange(5, n) =~= w);
    assert(patterns_from(l, n) == Some(Seq::<Seq<char>>::empty()));
    assert(patterns_from(l, 5) == Some(seq![w] + Seq::<Seq<char>>::empty()));
    assert(seq![w] + Seq::<Seq<char>>::empty() =~= seq![w]);
    assert(!w.contains('*')) by {
        if w.contains('*') {
            let k = choose|k: int| 0 <= k < w.len() && w[k] == '*';
        }
    }
    assert(!w.contains('?')) by {
        if w.contains('?') {
            let k = choose|k: int| 0 <= k < w.len() && w[k] == '?';
        }
    }
    assert(is_alias(w));
    assert(seq![w].drop_last() =~= Seq::<Seq<char>>::empty());
    assert(seq![w].last() == w);
    assert(keep_aliases(Seq::<Seq<char>>::empty()) =~= Seq::<Seq<char>>::empty());
    assert(keep_aliases(seq![w]) == keep_aliases(Seq::<Seq<char>>::empty()).push(w));
    assert(Seq::<Seq<char>>::empty().push(w) =~= seq![w]);
}

} // verus!
