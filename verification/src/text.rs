use vstd::prelude::*;

verus! {

/// Pushes one character onto the end of a string.
///
/// Wraps `String::push`, whose documentation states that it appends the
/// given `char` to the end of the `String`.
#[verifier::external_body]
pub(crate) fn push_char(s: &mut String, c: char)
    ensures
        final(s)@ == old(s)@.push(c),
{
    s.push(c);
}

/// The lower-case form of a text, as `str::to_lowercase` gives it (the
/// Unicode lower-case mapping of each character). A function of the
/// characters alone.
pub uninterp spec fn lowercase_of(s: Seq<char>) -> Seq<char>;

/// Lower-cases `s`.
///
/// Wraps `str::to_lowercase`; what it returns is named `lowercase_of` of the
/// characters of `s`, and nothing more is claimed about it.
#[verifier::external_body]
pub(crate) fn to_lowercase(s: &str) -> (r: String)
    ensures
        r@ == lowercase_of(s@),
{
    s.to_lowercase()
}

/// The characters of `s`, in order.
pub fn chars_of(s: &str) -> (r: Vec<char>)
    ensures
        r@ == s@,
{
    let mut r: Vec<char> = Vec::new();
    for c in it: s.chars()
        invariant
            r@ == it.seq().take(it.index() as int),
    {
        r.push(c);
    }
    r
}

/// The string made of `cs[from..to]`.
pub fn string_of(cs: &Vec<char>, from: usize, to: usize) -> (r: String)
    requires
        from <= to <= cs.len(),
    ensures
        r@ == cs@.subrange(from as int, to as int),
{
    let mut r = String::new();
    let mut i: usize = from;
    while i < to
        invariant
            from <= i <= to <= cs.len(),
            r@ == cs@.subrange(from as int, i as int),
        decreases to - i,
    {
        push_char(&mut r, cs[i]);
        i += 1;
    }
    r
}


/// Where the line that starts at `i` ends (at a newline or the end).
pub open spec fn line_end(c: Seq<char>, i: int) -> int
    decreases c.len() - i,
{
    if 0 <= i < c.len() && c[i] != '\n' {
        line_end(c, i + 1)
    } else {
        i
    }
}

/// A line without the carriage return of a `\r\n` ending.
pub open spec fn strip_cr(l: Seq<char>) -> Seq<char> {
    if l.len() > 0 && l.last() == '\r' {
        l.drop_last()
    } else {
        l
    }
}

/// The text of the line that starts at `i`, without its line ending (`\n`
/// or `\r\n`); a last line with no ending is taken whole.
pub open spec fn line_text(c: Seq<char>, i: int) -> Seq<char> {
    let e = line_end(c, i);
    if e < c.len() {
        strip_cr(c.subrange(i, e))
    } else {
        c.subrange(i, e)
    }
}

/// The lines from position `i` on, as `str::lines` splits them: a final line
/// ending does not start an empty line.
pub open spec fn lines_from(c: Seq<char>, i: int) -> Seq<Seq<char>>
    decreases c.len() - i,
{
    if i < 0 || i >= c.len() {
        Seq::empty()
    } else if i <= line_end(c, i) < c.len() {
        seq![line_text(c, i)] + lines_from(c, line_end(c, i) + 1)
    } else {
        seq![line_text(c, i)]
    }
}

/// The lines of a text, as `str::lines` splits them.
pub open spec fn text_lines(c: Seq<char>) -> Seq<Seq<char>> {
    lines_from(c, 0)
}

pub proof fn lemma_line_end(c: Seq<char>, i: int)
    requires
        0 <= i <= c.len(),
    ensures
        i <= line_end(c, i) <= c.len(),
        line_end(c, i) < c.len() ==> c[line_end(c, i)] == '\n',
        forall|k: int| i <= k < line_end(c, i) ==> c[k] != '\n',
    decreases c.len() - i,
{
    if i < c.len() && c[i] != '\n' {
        lemma_line_end(c, i + 1);
    }
}

/// Reads the line that starts at `i`: its text and where it ends.
pub fn read_line(cs: &Vec<char>, i: usize) -> (r: (Vec<char>, usize))
    requires
        i <= cs.len(),
    ensures
        r.0@ == line_text(cs@, i as int),
        r.1 == line_end(cs@, i as int),
        i <= r.1 <= cs.len(),
{
    let mut e = i;
    while e < cs.len() && cs[e] != '\n'
        invariant
            i <= e <= cs.len(),
            line_end(cs@, e as int) == line_end(cs@, i as int),
        decreases cs.len() - e,
    {
        e += 1;
    }
    let mut line = sub_vec(cs, i, e);
    if e < cs.len() && line.len() > 0 && line[line.len() - 1] == '\r' {
        line.pop();
        assert(line@ =~= strip_cr(cs@.subrange(i as int, e as int)));
    }
    (line, e)
}

/// The character of a decimal digit.
pub open spec fn digit_char(d: int) -> char {
    if d == 0 {
        '0'
    } else if d == 1 {
        '1'
    } else if d == 2 {
        '2'
    } else if d == 3 {
        '3'
    } else if d == 4 {
        '4'
    } else if d == 5 {
        '5'
    } else if d == 6 {
        '6'
    } else if d == 7 {
        '7'
    } else if d == 8 {
        '8'
    } else {
        '9'
    }
}

/// The decimal digits of `n`, most significant first, as `Display` writes
/// an unsigned integer.
pub open spec fn decimal_of(n: nat) -> Seq<char>
    decreases n,
{
    if n < 10 {
        seq![digit_char(n as int)]
    } else {
        decimal_of(n / 10).push(digit_char((n % 10) as int))
    }
}

fn digit(d: u128) -> (c: char)
    requires
        d < 10,
    ensures
        c == digit_char(d as int),
{
    if d == 0 {
        '0'
    } else if d == 1 {
        '1'
    } else if d == 2 {
        '2'
    } else if d == 3 {
        '3'
    } else if d == 4 {
        '4'
    } else if d == 5 {
        '5'
    } else if d == 6 {
        '6'
    } else if d == 7 {
        '7'
    } else if d == 8 {
        '8'
    } else {
        '9'
    }
}

/// `n` written in decimal.
pub fn decimal(n: u128) -> (r: String)
    ensures
        r@ == decimal_of(n as nat),
    decreases n,
{
    if n < 10 {
        let mut r = String::new();
        push_char(&mut r, digit(n));
        assert(r@ =~= seq![digit_char(n as int)]);
        r
    } else {
        let mut r = decimal(n / 10);
        push_char(&mut r, digit(n % 10));
        r
    }
}

/// Appends `t` to `s`.
pub fn push_text(s: &mut String, t: &str)
    ensures
        final(s)@ == old(s)@ + t@,
{
    let cs = chars_of(t);
    let mut i: usize = 0;
    while i < cs.len()
        invariant
            i <= cs.len(),
            cs@ == t@,
            s@ == old(s)@ + cs@.take(i as int),
        decreases cs.len() - i,
    {
        push_char(s, cs[i]);
        assert(cs@.take(i + 1) =~= cs@.take(i as int).push(cs@[i as int]));
        i += 1;
    }
    assert(cs@.take(i as int) =~= cs@);
}

/// Values joined with commas.
pub open spec fn join_commas(vs: Seq<Seq<char>>) -> Seq<char>
    decreases vs.len(),
{
    if vs.len() == 0 {
        Seq::empty()
    } else if vs.len() == 1 {
        vs[0]
    } else {
        join_commas(vs.drop_last()) + seq![','] + vs.last()
    }
}

/// Joins `vs` with commas.
pub fn join_with_commas(vs: &[String]) -> (r: String)
    ensures
        r@ == join_commas(views(vs@)),
{
    let mut r = String::new();
    let mut i: usize = 0;
    while i < vs.len()
        invariant
            i <= vs.len(),
            r@ == join_commas(views(vs@).take(i as int)),
        decreases vs.len() - i,
    {
        assert(views(vs@).take(i + 1).drop_last() =~= views(vs@).take(i as int));
        if i > 0 {
            push_char(&mut r, ',');
        } else {
            assert(views(vs@).take(0) =~= Seq::<Seq<char>>::empty());
            assert(r@ =~= Seq::<char>::empty());
        }
        push_text(&mut r, vs[i].as_str());
        proof {
            if i == 0 {
                assert(views(vs@).take(1) =~= seq![vs@[0]@]);
                assert(r@ =~= vs@[0]@);
            }
        }
        i += 1;
    }
    assert(views(vs@).take(i as int) =~= views(vs@));
    r
}

/// `s` holds no comma.
pub open spec fn comma_free(s: Seq<char>) -> bool {
    !s.contains(',')
}

/// The pieces of `s` between its commas, in order: one more piece than
/// there are commas.
pub open spec fn split_commas(s: Seq<char>) -> Seq<Seq<char>>
    decreases s.len(),
{
    if s.len() == 0 {
        seq![Seq::empty()]
    } else {
        let rest = split_commas(s.drop_last());
        if s.last() == ',' {
            rest.push(Seq::empty())
        } else {
            rest.update(rest.len() - 1, rest.last().push(s.last()))
        }
    }
}

proof fn lemma_split_commas_len(s: Seq<char>)
    ensures
        split_commas(s).len() >= 1,
    decreases s.len(),
{
    if s.len() > 0 {
        lemma_split_commas_len(s.drop_last());
    }
}

/// Text without commas after `p` only lengthens the last piece of `p`.
proof fn lemma_split_commas_extend(p: Seq<char>, v: Seq<char>)
    requires
        comma_free(v),
    ensures
        split_commas(p + v) == split_commas(p).update(
            split_commas(p).len() - 1,
            split_commas(p).last() + v,
        ),
    decreases v.len(),
{
    lemma_split_commas_len(p);
    let sp = split_commas(p);
    if v.len() == 0 {
        assert(p + v =~= p);
        assert(sp.last() + v =~= sp.last());
        assert(sp.update(sp.len() - 1, sp.last()) =~= sp);
    } else {
        let v0 = v.drop_last();
        assert(!v0.contains(',')) by {
            if v0.contains(',') {
                let k = choose|k: int| 0 <= k < v0.len() && v0[k] == ',';
                assert(v[k] == ',');
            }
        }
        assert(v.last() != ',') by {
            assert(v[v.len() - 1] == v.last());
        }
        lemma_split_commas_extend(p, v0);
        assert((p + v).drop_last() =~= p + v0);
        assert((p + v).last() == v.last());
        let r = split_commas(p + v0);
        assert(r.len() == sp.len());
        assert(r.last() == sp.last() + v0);
        assert(sp.last() + v0 + seq![v.last()] =~= sp.last() + v);
        assert(split_commas((p + v).drop_last()) == r);
        assert(split_commas(p + v) == r.update(r.len() - 1, r.last().push(v.last())));
        assert(r.last().push(v.last()) =~= sp.last() + v);
        assert(r.update(r.len() - 1, sp.last() + v) =~= sp.update(sp.len() - 1, sp.last() + v));
    }
}

/// Joining with commas puts exactly one comma between every two
/// neighbouring values and nothing else: nothing for no value, the value
/// itself for one, and one more comma and value for each value added.
pub proof fn lemma_join_commas_steps(vs: Seq<Seq<char>>, v: Seq<char>)
    ensures
        join_commas(Seq::empty()) == Seq::<char>::empty(),
        join_commas(seq![v]) == v,
        vs.len() > 0 ==> join_commas(vs.push(v)) == join_commas(vs) + seq![','] + v,
{
    assert(seq![v][0] == v);
    if vs.len() > 0 {
        assert(vs.push(v).drop_last() =~= vs);
        assert(vs.push(v).last() == v);
    }
}

/// Values without commas come back from the text that joins them when it
/// is split at its commas: as many pieces as values, the same values, in
/// the same order.
pub proof fn lemma_split_join_commas(vs: Seq<Seq<char>>)
    requires
        vs.len() > 0,
        forall|k: int| 0 <= k < vs.len() ==> comma_free(#[trigger] vs[k]),
    ensures
        split_commas(join_commas(vs)) == vs,
    decreases vs.len(),
{
    let v = vs.last();
    assert(comma_free(v)) by {
        assert(comma_free(vs[vs.len() - 1]));
    }
    if vs.len() == 1 {
        assert(Seq::<char>::empty() + v =~= v);
        lemma_split_commas_extend(Seq::empty(), v);
        assert(split_commas(Seq::<char>::empty()) =~= seq![Seq::<char>::empty()]);
        assert(Seq::<char>::empty() + v =~= v);
        assert(seq![Seq::<char>::empty()].update(0, Seq::<char>::empty() + v) =~= vs);
    } else {
        let front = vs.drop_last();
        assert forall|k: int| 0 <= k < front.len() implies comma_free(#[trigger] front[k]) by {
            assert(front[k] == vs[k]);
        }
        lemma_split_join_commas(front);
        let j = join_commas(front);
        let p = j + seq![','];
        assert(p.drop_last() =~= j);
        assert(p.last() == ',');
        assert(split_commas(p) == front.push(Seq::empty()));
        lemma_split_commas_extend(p, v);
        assert(join_commas(vs) == p + v);
        assert(Seq::<char>::empty() + v =~= v);
        assert(front.push(Seq::empty()).update(front.len() as int, Seq::<char>::empty() + v) =~= vs);
    }
}

/// Whether two character vectors are the same.
pub fn same_chars(a: &Vec<char>, b: &Vec<char>) -> (r: bool)
    ensures
        r == (a@ == b@),
{
    if a.len() != b.len() {
        return false;
    }
    let mut i: usize = 0;
    while i < a.len()
        invariant
            a.len() == b.len(),
            i <= a.len(),
            forall|j: int| 0 <= j < i ==> a@[j] == b@[j],
        decreases a.len() - i,
    {
        if a[i] != b[i] {
            return false;
        }
        i += 1;
    }
    assert(a@ =~= b@);
    true
}

/// Whether `s` and `t` hold the same characters.
pub fn same_text(s: &str, t: &str) -> (r: bool)
    ensures
        r == (s@ == t@),
{
    same_chars(&chars_of(s), &chars_of(t))
}

/// The characters of `cs[from..to]`, as a vector of their own.
pub fn sub_vec(cs: &Vec<char>, from: usize, to: usize) -> (r: Vec<char>)
    requires
        from <= to <= cs.len(),
    ensures
        r@ == cs@.subrange(from as int, to as int),
{
    let mut r: Vec<char> = Vec::new();
    let mut i: usize = from;
    while i < to
        invariant
            from <= i <= to <= cs.len(),
            r@ == cs@.subrange(from as int, i as int),
        decreases to - i,
    {
        r.push(cs[i]);
        i += 1;
    }
    r
}

/// The character sequences of a list of strings.
pub open spec fn views(v: Seq<String>) -> Seq<Seq<char>> {
    v.map_values(|s: String| s@)
}

/// `acc` followed by every element of `new` that is not already there,
/// each added once, in the order of its first appearance.
pub open spec fn insert_all(acc: Seq<Seq<char>>, new: Seq<Seq<char>>) -> Seq<Seq<char>>
    decreases new.len(),
{
    if new.len() == 0 {
        acc
    } else {
        let a = insert_all(acc, new.drop_last());
        if a.contains(new.last()) {
            a
        } else {
            a.push(new.last())
        }
    }
}

/// Whether `v` holds a string whose characters are `a`.
pub fn contains_string(v: &Vec<String>, a: &String) -> (r: bool)
    ensures
        r == views(v@).contains(a@),
{
    let mut i: usize = 0;
    while i < v.len()
        invariant
            i <= v.len(),
            forall|j: int| 0 <= j < i ==> v@[j]@ != a@,
        decreases v.len() - i,
    {
        if v[i] == *a {
            assert(views(v@)[i as int] == a@);
            return true;
        }
        i += 1;
    }
    assert forall|j: int| 0 <= j < views(v@).len() implies views(v@)[j] != a@ by {
        assert(views(v@)[j] == v@[j]@);
    }
    false
}

/// Appends `a` to `v` unless `v` already holds it.
pub fn insert_string(v: &mut Vec<String>, a: String)
    ensures
        views(final(v)@) == insert_all(views(old(v)@), seq![a@]),
        final(v)@.len() >= old(v)@.len(),
        forall|j: int| 0 <= j < old(v)@.len() ==> final(v)@[j] == old(v)@[j],
{
    proof {
        assert(seq![a@].drop_last() =~= Seq::<Seq<char>>::empty());
        assert(insert_all(views(old(v)@), Seq::<Seq<char>>::empty()) == views(old(v)@));
    }
    if !contains_string(v, &a) {
        v.push(a);
        assert(views(v@) =~= views(old(v)@).push(a@));
    }
}


/// What a sequence with one more element contains.
pub proof fn lemma_contains_push<A>(s: Seq<A>, a: A, x: A)
    ensures
        s.push(a).contains(x) == (s.contains(x) || a == x),
{
    if s.push(a).contains(x) {
        let w = choose|w: int| 0 <= w < s.push(a).len() && s.push(a)[w] == x;
        if w < s.len() {
            assert(s[w] == x);
        }
    }
    if s.contains(x) {
        let w = choose|w: int| 0 <= w < s.len() && s[w] == x;
        assert(s.push(a)[w] == x);
    }
    if a == x {
        assert(s.push(a)[s.len() as int] == x);
    }
}

/// What `insert_all` holds is what either of its inputs holds.
pub proof fn lemma_insert_all_contains(acc: Seq<Seq<char>>, new: Seq<Seq<char>>, x: Seq<char>)
    ensures
        insert_all(acc, new).contains(x) == (acc.contains(x) || new.contains(x)),
    decreases new.len(),
{
    if new.len() > 0 {
        lemma_insert_all_contains(acc, new.drop_last(), x);
        lemma_contains_push(insert_all(acc, new.drop_last()), new.last(), x);
        lemma_contains_push(new.drop_last(), new.last(), x);
        assert(new.drop_last().push(new.last()) =~= new);
    }
}

/// `insert_all` adds nothing twice.
pub proof fn lemma_insert_all_no_duplicates(acc: Seq<Seq<char>>, new: Seq<Seq<char>>)
    requires
        acc.no_duplicates(),
    ensures
        insert_all(acc, new).no_duplicates(),
    decreases new.len(),
{
    if new.len() > 0 {
        lemma_insert_all_no_duplicates(acc, new.drop_last());
        let a = insert_all(acc, new.drop_last());
        if !a.contains(new.last()) {
            assert forall|i: int, j: int| 0 <= i < a.push(new.last()).len() && 0 <= j < a.push(
                new.last(),
            ).len() && i != j implies a.push(new.last())[i] != a.push(new.last())[j] by {
                if i < a.len() && j < a.len() {
                } else if i < a.len() {
                    assert(a[i] != new.last());
                } else if j < a.len() {
                    assert(a[j] != new.last());
                }
            }
        }
    }
}

/// The order `Ord` gives `String`: lexicographic over the characters, each
/// compared by its code point (the same order as comparing UTF-8 bytes).
pub open spec fn lex_lt(a: Seq<char>, b: Seq<char>) -> bool
    decreases a.len(),
{
    if a.len() == 0 {
        b.len() > 0
    } else if b.len() == 0 {
        false
    } else if a[0] != b[0] {
        (a[0] as int) < (b[0] as int)
    } else {
        lex_lt(a.drop_first(), b.drop_first())
    }
}

/// `s` is in strictly increasing order.
pub open spec fn strictly_sorted(s: Seq<Seq<char>>) -> bool {
    forall|i: int, j: int| 0 <= i < j < s.len() ==> lex_lt(s[i], s[j])
}

pub proof fn lemma_lex_irreflexive(a: Seq<char>)
    ensures
        !lex_lt(a, a),
    decreases a.len(),
{
    if a.len() > 0 {
        lemma_lex_irreflexive(a.drop_first());
    }
}

pub proof fn lemma_lex_transitive(a: Seq<char>, b: Seq<char>, c: Seq<char>)
    requires
        lex_lt(a, b),
        lex_lt(b, c),
    ensures
        lex_lt(a, c),
    decreases a.len(),
{
    if a.len() > 0 && b.len() > 0 && c.len() > 0 && a[0] == b[0] && b[0] == c[0] {
        lemma_lex_transitive(a.drop_first(), b.drop_first(), c.drop_first());
    }
}

/// Two different sequences are ordered one way or the other.
pub proof fn lemma_lex_total(a: Seq<char>, b: Seq<char>)
    requires
        a != b,
    ensures
        lex_lt(a, b) || lex_lt(b, a),
    decreases a.len(),
{
    if a.len() == 0 {
        assert(b.len() > 0) by {
            if b.len() == 0 {
                assert(a =~= b);
            }
        }
    } else if b.len() == 0 {
    } else if a[0] == b[0] {
        if a.drop_first() == b.drop_first() {
            assert(a =~= seq![a[0]] + a.drop_first());
            assert(b =~= seq![b[0]] + b.drop_first());
        }
        lemma_lex_total(a.drop_first(), b.drop_first());
    } else {
    }
}

/// Whether `a` comes strictly before `b` in the order of `lex_lt`.
pub fn lex_less(a: &Vec<char>, b: &Vec<char>) -> (r: bool)
    ensures
        r == lex_lt(a@, b@),
{
    let mut i: usize = 0;
    assert(a@.skip(0) =~= a@);
    assert(b@.skip(0) =~= b@);
    while i < a.len() && i < b.len() && a[i] == b[i]
        invariant
            i <= a.len(),
            i <= b.len(),
            lex_lt(a@, b@) == lex_lt(a@.skip(i as int), b@.skip(i as int)),
        decreases a.len() - i,
    {
        assert(a@.skip(i as int).drop_first() =~= a@.skip(i + 1));
        assert(b@.skip(i as int).drop_first() =~= b@.skip(i + 1));
        i += 1;
    }
    if i == a.len() {
        i < b.len()
    } else if i == b.len() {
        false
    } else {
        a[i] < b[i]
    }
}

/// The distinct strings of `v`, in increasing order.
pub fn sorted_distinct(v: &Vec<String>) -> (r: Vec<String>)
    ensures
        strictly_sorted(views(r@)),
        forall|x: Seq<char>| views(r@).contains(x) == views(v@).contains(x),
{
    let mut r: Vec<String> = Vec::new();
    let mut k: usize = 0;
    while k < v.len()
        invariant
            k <= v.len(),
            strictly_sorted(views(r@)),
            forall|x: Seq<char>| views(r@).contains(x) == views(v@).take(k as int).contains(x),
        decreases v.len() - k,
    {
        let x = v[k].clone();
        let xc = chars_of(x.as_str());
        let mut p: usize = 0;
        let mut stop = false;
        while !stop && p < r.len()
            invariant
                p <= r.len(),
                xc@ == x@,
                forall|q: int| 0 <= q < p ==> lex_lt(r@[q]@, x@),
                stop ==> p < r.len() && !lex_lt(r@[p as int]@, x@),
            decreases r.len() - p + (if stop { 0int } else { 1int }),
        {
            let rc = chars_of(r[p].as_str());
            if lex_less(&rc, &xc) {
                p += 1;
            } else {
                stop = true;
            }
        }
        let found = p < r.len() && r[p] == x;
        let ghost old_r = views(r@);
        proof {
            assert(views(v@).take(k + 1) =~= views(v@).take(k as int).push(x@));
        }
        if found {
            proof {
                if r@[p as int]@ != x@ {
                    lemma_lex_total(r@[p as int]@, x@);
                }
                assert(old_r[p as int] == x@);
                assert forall|y: Seq<char>| views(r@).contains(y) == views(v@).take(k + 1).contains(y) by {
                    lemma_contains_push(views(v@).take(k as int), x@, y);
                }
            }
        } else {
            proof {
                assert forall|q: int| p <= q < old_r.len() implies lex_lt(x@, old_r[q]) by {
                    assert(!lex_lt(old_r[p as int], x@));
                    if old_r[p as int] == x@ {
                        assert(false);
                    }
                    lemma_lex_total(old_r[p as int], x@);
                    if q > p {
                        lemma_lex_transitive(x@, old_r[p as int], old_r[q]);
                    }
                }
            }
            r.insert(p, x);
            proof {
                assert(views(r@) =~= old_r.insert(p as int, x@));
                assert forall|i: int, j: int| 0 <= i < j < views(r@).len() implies lex_lt(views(r@)[i], views(r@)[j]) by {
                    if j < p {
                    } else if j == p {
                    } else if i < p {
                        lemma_lex_transitive(old_r[i], x@, old_r[j - 1]);
                    } else if i == p {
                    } else {
                    }
                }
                assert forall|y: Seq<char>| views(r@).contains(y) == views(v@).take(k + 1).contains(y) by {
                    lemma_contains_push(views(v@).take(k as int), x@, y);
                    if views(r@).contains(y) {
                        let w = choose|w: int| 0 <= w < views(r@).len() && views(r@)[w] == y;
                        if w < p {
                            assert(old_r[w] == y);
                        } else if w > p {
                            assert(old_r[w - 1] == y);
                        }
                    }
                    if old_r.contains(y) {
                        let w = choose|w: int| 0 <= w < old_r.len() && old_r[w] == y;
                        if w < p {
                            assert(views(r@)[w] == y);
                        } else {
                            assert(views(r@)[w + 1] == y);
                        }
                    }
                    if y == x@ {
                        assert(views(r@)[p as int] == y);
                    }
                }
            }
        }
        k += 1;
    }
    assert(views(v@).take(k as int) =~= views(v@));
    r
}

} // verus!
