//! The option listing that `ssh -G` prints: one `<name> <value>` pair per
//! line, split at the first space so that values keep their own spaces. A
//! name may come back on several lines (`identityfile`, `sendenv`), so each
//! name maps to its values in the order they were printed.

use vstd::prelude::*;
use crate::text::{same_text, views};

verus! {

/// The first position at or after `i` that holds a space.
pub open spec fn space_at(l: Seq<char>, i: int) -> int
    decreases l.len() - i,
{
    if 0 <= i < l.len() && l[i] != ' ' {
        space_at(l, i + 1)
    } else {
        i
    }
}

/// A line holds a space, so it splits into a name and a value.
pub open spec fn has_space(l: Seq<char>) -> bool {
    0 <= space_at(l, 0) < l.len()
}

/// The option name of a line: what comes before its first space.
pub open spec fn option_name(l: Seq<char>) -> Seq<char> {
    l.subrange(0, space_at(l, 0))
}

/// The option value of a line: what comes after its first space.
pub open spec fn option_value(l: Seq<char>) -> Seq<char> {
    l.subrange(space_at(l, 0) + 1, l.len() as int)
}

/// Every line splits at a space.
pub open spec fn all_split(ls: Seq<Seq<char>>) -> bool {
    forall|j: int| 0 <= j < ls.len() ==> has_space(#[trigger] ls[j])
}

/// The values the lines give the option `name`, in order.
pub open spec fn values_for(ls: Seq<Seq<char>>, name: Seq<char>) -> Seq<Seq<char>>
    decreases ls.len(),
{
    if ls.len() == 0 {
        Seq::empty()
    } else if option_name(ls.last()) == name {
        values_for(ls.drop_last(), name).push(option_value(ls.last()))
    } else {
        values_for(ls.drop_last(), name)
    }
}

/// The options the lines set: each name printed, with all of its values.
pub open spec fn options_of(ls: Seq<Seq<char>>) -> Map<Seq<char>, Seq<Seq<char>>> {
    Map::new(|name: Seq<char>| values_for(ls, name).len() > 0, |name: Seq<char>| values_for(ls, name))
}

/// The options that lists of names and of their values give: each name
/// listed, with the values at its first position.
spec fn listed_options(names: Seq<String>, values: Seq<Vec<String>>) -> Map<Seq<char>, Seq<Seq<char>>> {
    Map::new(
        |name: Seq<char>| views(names).contains(name),
        |name: Seq<char>| views(values[views(names).index_of(name)]@),
    )
}

/// Options, each with the list of its values.
pub struct VarMap {
    names: Vec<String>,
    values: Vec<Vec<String>>,
}

impl VarMap {
    /// One list of values per name, and no name twice.
    #[verifier::type_invariant]
    spec fn well_formed(self) -> bool {
        &&& self.names.len() == self.values.len()
        &&& views(self.names@).no_duplicates()
    }

    /// The values of each option.
    pub closed spec fn options(self) -> Map<Seq<char>, Seq<Seq<char>>> {
        listed_options(self.names@, self.values@)
    }

    /// No option at all.
    pub fn new() -> (r: VarMap)
        ensures
            r.options() == Map::<Seq<char>, Seq<Seq<char>>>::empty(),
    {
        let r = VarMap { names: Vec::new(), values: Vec::new() };
        assert(views(r.names@) =~= Seq::<Seq<char>>::empty());
        assert(r.options() =~= Map::<Seq<char>, Seq<Seq<char>>>::empty());
        r
    }

    /// Where `name` is listed, if it is.
    fn position(&self, name: &str) -> (r: Option<usize>)
        ensures
            match r {
                Some(i) => i < self.names.len() && self.names@[i as int]@ == name@,
                None => !views(self.names@).contains(name@),
            },
    {
        let mut i: usize = 0;
        while i < self.names.len()
            invariant
                i <= self.names.len(),
                forall|j: int| 0 <= j < i ==> self.names@[j]@ != name@,
            decreases self.names.len() - i,
        {
            if same_text(self.names[i].as_str(), name) {
                return Some(i);
            }
            i += 1;
        }
        assert forall|j: int| 0 <= j < views(self.names@).len() implies views(self.names@)[j] != name@ by {
            assert(views(self.names@)[j] == self.names@[j]@);
        }
        None
    }

    /// Adds one more value of `name`, after those it already has.
    pub fn add(&mut self, name: String, value: String)
        ensures
            final(self).options() == old(self).options().insert(
                name@,
                if old(self).options().contains_key(name@) {
                    old(self).options()[name@].push(value@)
                } else {
                    seq![value@]
                },
            ),
    {
        proof {
            use_type_invariant(&*self);
        }
        let ghost old_names = views(self.names@);
        let found = self.position(name.as_str());
        let mut taken = VarMap::new();
        std::mem::swap(self, &mut taken);
        let VarMap { mut names, mut values } = taken;
        assert(views(names@) == old_names);
        match found {
            Some(i) => {
                proof {
                    assert(old_names[i as int] == name@);
                    assert(old_names.index_of(name@) == i as int) by {
                        let j = old_names.index_of(name@);
                        assert(old_names.contains(name@));
                        assert(old_names[j] == name@);
                    }
                }
                let mut list: Vec<String> = Vec::new();
                values.set_and_swap(i, &mut list);
                let ghost before = views(list@);
                list.push(value);
                assert(views(list@) =~= before.push(value@));
                values.set_and_swap(i, &mut list);
                proof {
                    assert forall|k: Seq<char>| views(names@).contains(k) && k != name@ implies views(
                        values@[views(names@).index_of(k)]@,
                    ) == views(old(self).values@[old_names.index_of(k)]@) by {
                        let j = views(names@).index_of(k);
                        assert(views(names@)[j] == k);
                        assert(j != i as int);
                    }
                    assert(listed_options(names@, values@) =~= old(self).options().insert(
                        name@,
                        old(self).options()[name@].push(value@),
                    ));
                }
            },
            None => {
                let ghost nv = name@;
                names.push(name);
                let mut list: Vec<String> = Vec::new();
                list.push(value);
                assert(views(list@) =~= seq![value@]);
                values.push(list);
                proof {
                    assert(views(names@) =~= old_names.push(nv));
                    assert(views(names@).no_duplicates()) by {
                        assert forall|a: int, b: int| 0 <= a < views(names@).len() && 0 <= b < views(names@).len() && a != b implies views(names@)[a] != views(names@)[b] by {
                            if a < old_names.len() && b < old_names.len() {
                            } else if a < old_names.len() {
                                assert(old_names.contains(old_names[a]));
                            } else {
                                assert(old_names.contains(old_names[b]));
                            }
                        }
                    }
                    let last = old_names.len() as int;
                    assert(views(names@)[last] == nv);
                    assert(views(names@).index_of(nv) == last) by {
                        let j = views(names@).index_of(nv);
                        assert(views(names@).contains(nv));
                        if j != last {
                            assert(views(names@)[j] == nv);
                            assert(old_names.contains(nv));
                        }
                    }
                    assert forall|k: Seq<char>| views(names@).contains(k) && k != nv implies views(
                        values@[views(names@).index_of(k)]@,
                    ) == views(old(self).values@[old_names.index_of(k)]@) && old_names.contains(k) by {
                        let j = views(names@).index_of(k);
                        assert(views(names@)[j] == k);
                        assert(j != last);
                        assert(old_names[j] == k);
                        assert(old_names.contains(k));
                        let j2 = old_names.index_of(k);
                        assert(old_names[j2] == k);
                        assert(j2 == j);
                    }
                    assert forall|k: Seq<char>| old_names.contains(k) implies views(names@).contains(k) by {
                        let j = old_names.index_of(k);
                        assert(views(names@)[j] == k);
                    }
                    assert(listed_options(names@, values@) =~= old(self).options().insert(nv, seq![value@]));
                }
            },
        }
        *self = VarMap { names, values };
    }

    /// The values `ssh` reported for the option `name`, or `None` if the
    /// option was not present in the output.
    pub fn get(&self, name: &str) -> (r: Option<&[String]>)
        ensures
            match r {
                Some(vs) => self.options().contains_key(name@) && views(vs@) == self.options()[name@],
                None => !self.options().contains_key(name@),
            },
    {
        proof {
            use_type_invariant(self);
        }
        match self.position(name) {
            Some(i) => {
                proof {
                    let ns = views(self.names@);
                    assert(ns[i as int] == name@);
                    let j = ns.index_of(name@);
                    assert(ns.contains(name@));
                    assert(ns[j] == name@);
                    assert(j == i as int);
                }
                Some(self.values[i].as_slice())
            },
            None => None,
        }
    }
}

/// A line that is not `<name> <value>`, counted from 1.
#[derive(Debug, Clone, Copy, PartialEq, Eq)]
pub struct UnexpectedLine {
    pub line: usize,
}

/// The first line that does not split at a space is line `n` (counted from 1).
pub open spec fn first_unsplit_line(ls: Seq<Seq<char>>, n: int) -> bool {
    &&& 1 <= n <= ls.len()
    &&& !has_space(ls[n - 1])
    &&& all_split(ls.take(n - 1))
}

pub proof fn lemma_options_push(ls: Seq<Seq<char>>, l: Seq<char>)
    ensures
        options_of(ls.push(l)) == options_of(ls).insert(
            option_name(l),
            if options_of(ls).contains_key(option_name(l)) {
                options_of(ls)[option_name(l)].push(option_value(l))
            } else {
                seq![option_value(l)]
            },
        ),
{
    assert(ls.push(l).drop_last() =~= ls);
    assert forall|k: Seq<char>| #[trigger] values_for(ls.push(l), k) == if option_name(l) == k {
        values_for(ls, k).push(option_value(l))
    } else {
        values_for(ls, k)
    } by {
        assert(ls.push(l).last() == l);
    }
    let m1 = options_of(ls.push(l));
    let m0 = options_of(ls);
    let n = option_name(l);
    let m2 = m0.insert(n, if m0.contains_key(n) { m0[n].push(option_value(l)) } else { seq![option_value(l)] });
    assert forall|k: Seq<char>| m1.contains_key(k) <==> m2.contains_key(k) by {
        assert(values_for(ls.push(l), k) == values_for(ls.push(l), k));
    }
    assert forall|k: Seq<char>| m1.contains_key(k) implies m1[k] == m2[k] by {
        assert(values_for(ls.push(l), k) == values_for(ls.push(l), k));
        if k == n && !m0.contains_key(n) {
            assert(values_for(ls, k).len() == 0);
            assert(values_for(ls, k).push(option_value(l)) =~= seq![option_value(l)]);
        }
    }
    assert(m1 =~= m2);
}


proof fn lemma_space_at(l: Seq<char>, i: int)
    requires
        0 <= i <= l.len(),
    ensures
        i <= space_at(l, i) <= l.len(),
        space_at(l, i) < l.len() ==> l[space_at(l, i)] == ' ',
        forall|k: int| i <= k < space_at(l, i) ==> l[k] != ' ',
    decreases l.len() - i,
{
    if i < l.len() && l[i] != ' ' {
        lemma_space_at(l, i + 1);
    }
}

/// A line splits at its first space: the name holds no space, and the name,
/// a space and the value give the line back, spaces in the value and all.
pub proof fn lemma_line_splits_back(l: Seq<char>)
    requires
        has_space(l),
    ensures
        !option_name(l).contains(' '),
        option_name(l) + seq![' '] + option_value(l) == l,
{
    lemma_space_at(l, 0);
    let p = space_at(l, 0);
    if option_name(l).contains(' ') {
        let w = choose|w: int| 0 <= w < option_name(l).len() && option_name(l)[w] == ' ';
        assert(l[w] == ' ');
    }
    assert(option_name(l) + seq![' '] + option_value(l) =~= l);
}

/// An option printed on a single line comes back as a single value.
pub proof fn lemma_single_line_single_value(ls: Seq<Seq<char>>, j: int)
    requires
        0 <= j < ls.len(),
        forall|k: int| 0 <= k < ls.len() && k != j ==> option_name(#[trigger] ls[k]) != option_name(ls[j]),
    ensures
        options_of(ls).contains_key(option_name(ls[j])),
        options_of(ls)[option_name(ls[j])] == seq![option_value(ls[j])],
{
    lemma_values_for_single(ls, j);
}

proof fn lemma_values_for_single(ls: Seq<Seq<char>>, j: int)
    requires
        0 <= j < ls.len(),
        forall|k: int| 0 <= k < ls.len() && k != j ==> option_name(#[trigger] ls[k]) != option_name(ls[j]),
    ensures
        values_for(ls, option_name(ls[j])) == seq![option_value(ls[j])],
    decreases ls.len(),
{
    let n = option_name(ls[j]);
    if j < ls.len() - 1 {
        let d = ls.drop_last();
        assert(d[j] == ls[j]);
        assert forall|k: int| 0 <= k < d.len() && k != j implies option_name(#[trigger] d[k]) != option_name(d[j]) by {
            assert(d[k] == ls[k]);
        }
        lemma_values_for_single(d, j);
        assert(option_name(ls[ls.len() - 1]) != n);
    } else {
        lemma_values_for_absent(ls.drop_last(), n);
        assert(values_for(ls.drop_last(), n).push(option_value(ls[j])) =~= seq![option_value(ls[j])]);
    }
}

proof fn lemma_values_for_absent(ls: Seq<Seq<char>>, n: Seq<char>)
    requires
        forall|k: int| 0 <= k < ls.len() ==> option_name(#[trigger] ls[k]) != n,
    ensures
        values_for(ls, n) == Seq::<Seq<char>>::empty(),
    decreases ls.len(),
{
    if ls.len() > 0 {
        let d = ls.drop_last();
        assert forall|k: int| 0 <= k < d.len() implies option_name(#[trigger] d[k]) != n by {
            assert(d[k] == ls[k]);
        }
        lemma_values_for_absent(d, n);
        assert(option_name(ls[ls.len() - 1]) != n);
    }
}

} // verus!
