//! String options by name.

use vstd::prelude::*;

use crate::text::{parse_unsigned, str_eq, unsigned_value};

verus! {

/// A map of options: each name has one value.
pub struct OptionsMap {
    entries: Vec<(String, String)>,
}

/// The entries as a map.
pub open spec fn entry_map(v: Seq<(String, String)>) -> Map<Seq<char>, Seq<char>>
    decreases v.len(),
{
    if v.len() == 0 {
        Map::empty()
    } else {
        entry_map(v.drop_last()).insert(v.last().0@, v.last().1@)
    }
}

/// No name is listed twice.
pub open spec fn distinct_names(v: Seq<(String, String)>) -> bool {
    forall|i: int, j: int| 0 <= i < j < v.len() ==> (#[trigger] v[i]).0@ != (#[trigger] v[j]).0@
}

impl View for OptionsMap {
    type V = Map<Seq<char>, Seq<char>>;

    closed spec fn view(&self) -> Map<Seq<char>, Seq<char>> {
        entry_map(self.entries@)
    }
}

/// The map holds exactly the listed entries.
proof fn lemma_entry_map(v: Seq<(String, String)>)
    requires
        distinct_names(v),
    ensures
        forall|i: int|
            0 <= i < v.len() ==> entry_map(v).contains_key((#[trigger] v[i]).0@)
                && entry_map(v)[v[i].0@] == v[i].1@,
        forall|k: Seq<char>| #[trigger]
            entry_map(v).contains_key(k) ==> exists|i: int|
                0 <= i < v.len() && (#[trigger] v[i]).0@ == k,
    decreases v.len(),
{
    if v.len() > 0 {
        let t = v.drop_last();
        assert(distinct_names(t)) by {
            assert forall|i: int, j: int| 0 <= i < j < t.len() implies (#[trigger] t[i]).0@ != (
            #[trigger] t[j]).0@ by {
                assert(v[i].0@ != v[j].0@);
            }
        }
        lemma_entry_map(t);
        assert forall|i: int| 0 <= i < v.len() implies entry_map(v).contains_key(
            (#[trigger] v[i]).0@,
        ) && entry_map(v)[v[i].0@] == v[i].1@ by {
            if i < t.len() {
                assert(t[i] == v[i]);
                assert(v[i].0@ != v[v.len() - 1].0@);
            }
        }
        assert forall|k: Seq<char>| #[trigger] entry_map(v).contains_key(k) implies exists|i: int|
            0 <= i < v.len() && (#[trigger] v[i]).0@ == k by {
            if k == v.last().0@ {
                assert(v[v.len() - 1].0@ == k);
            } else {
                assert(entry_map(t).contains_key(k));
                let i = choose|i: int| 0 <= i < t.len() && (#[trigger] t[i]).0@ == k;
                assert(t[i] == v[i]);
                assert(v[i].0@ == k);
            }
        }
    }
}

/// Replacing the value of a listed name updates the map there.
proof fn lemma_entry_map_update(v: Seq<(String, String)>, i: int, x: (String, String))
    requires
        distinct_names(v),
        0 <= i < v.len(),
        x.0@ == v[i].0@,
    ensures
        distinct_names(v.update(i, x)),
        entry_map(v.update(i, x)) == entry_map(v).insert(x.0@, x.1@),
{
    let u = v.update(i, x);
    assert(distinct_names(u)) by {
        assert forall|a: int, b: int| 0 <= a < b < u.len() implies (#[trigger] u[a]).0@ != (
        #[trigger] u[b]).0@ by {
            assert(v[a].0@ != v[b].0@);
        }
    }
    lemma_entry_map(v);
    lemma_entry_map(u);
    let m = entry_map(v).insert(x.0@, x.1@);
    assert forall|k: Seq<char>| entry_map(u).contains_key(k) == m.contains_key(k) by {
        if entry_map(u).contains_key(k) {
            let j = choose|j: int| 0 <= j < u.len() && (#[trigger] u[j]).0@ == k;
            assert(v[j].0@ == k);
        }
        if m.contains_key(k) {
            if k == x.0@ {
                assert(u[i].0@ == k);
            } else {
                assert(entry_map(v).contains_key(k));
                let j = choose|j: int| 0 <= j < v.len() && (#[trigger] v[j]).0@ == k;
                assert(u[j].0@ == k);
            }
        }
    }
    assert forall|k: Seq<char>| entry_map(u).contains_key(k) implies entry_map(u)[k] == m[k] by {
        let j = choose|j: int| 0 <= j < u.len() && (#[trigger] u[j]).0@ == k;
        assert(v[j].0@ == k);
        if j != i {
            assert(u[j] == v[j]);
            assert(k != x.0@) by {
                if i < j {
                    assert(v[i].0@ != v[j].0@);
                } else {
                    assert(v[j].0@ != v[i].0@);
                }
            }
        }
    }
    assert(entry_map(u) =~= m);
}

impl OptionsMap {
    /// No name is listed twice.
    #[verifier::type_invariant]
    closed spec fn wf(&self) -> bool {
        distinct_names(self.entries@)
    }

    /// A map with no options.
    pub fn new() -> (m: OptionsMap)
        ensures
            m@ == Map::<Seq<char>, Seq<char>>::empty(),
    {
        OptionsMap { entries: Vec::new() }
    }

    /// Sets an option, replacing an earlier value.
    pub fn insert(&mut self, name: String, value: String)
        ensures
            final(self)@ == old(self)@.insert(name@, value@),
    {
        proof {
            use_type_invariant(&*self);
        }
        let mut entries: Vec<(String, String)> = Vec::new();
        std::mem::swap(&mut entries, &mut self.entries);
        let ghost before = entries@;
        let mut i: usize = 0;
        while i < entries.len()
            invariant
                i <= entries@.len(),
                entries@ == before,
                before == old(self).entries@,
                distinct_names(before),
                forall|j: int| 0 <= j < i ==> (#[trigger] before[j]).0@ != name@,
            decreases entries@.len() - i,
        {
            if entries[i].0 == name {
                let ghost x = (name, value);
                proof {
                    lemma_entry_map_update(before, i as int, x);
                }
                entries.set(i, (name, value));
                assert(entries@ =~= before.update(i as int, x));
                self.entries = entries;
                return ;
            }
            i = i + 1;
        }
        entries.push((name, value));
        proof {
            assert(entries@.drop_last() =~= before);
            assert(distinct_names(entries@)) by {
                assert forall|a: int, b: int| 0 <= a < b < entries@.len() implies (
                #[trigger] entries@[a]).0@ != (#[trigger] entries@[b]).0@ by {
                    assert(entries@[a] == before[a]);
                    if b < before.len() {
                        assert(entries@[b] == before[b]);
                    }
                }
            }
        }
        self.entries = entries;
    }

    /// The value of an option, if it is set.
    pub fn get(&self, name: &str) -> (r: Option<&String>)
        ensures
            match r {
                Some(v) => self@.contains_key(name@) && self@[name@] == v@,
                None => !self@.contains_key(name@),
            },
    {
        proof {
            use_type_invariant(self);
            lemma_entry_map(self.entries@);
        }
        let mut i: usize = 0;
        while i < self.entries.len()
            invariant
                i <= self.entries@.len(),
                forall|j: int| 0 <= j < i ==> (#[trigger] self.entries@[j]).0@ != name@,
                forall|j: int|
                    0 <= j < self.entries@.len() ==> entry_map(self.entries@).contains_key(
                        (#[trigger] self.entries@[j]).0@,
                    ) && entry_map(self.entries@)[self.entries@[j].0@] == self.entries@[j].1@,
            decreases self.entries@.len() - i,
        {
            if str_eq(self.entries[i].0.as_str(), name) {
                return Some(&self.entries[i].1);
            }
            i = i + 1;
        }
        None
    }

    /// Number of options. The names listed are those that the map holds.
    pub fn len(&self) -> (n: usize)
        ensures
            n == self.names().len(),
            forall|k: Seq<char>| #[trigger] self@.contains_key(k) <==> self.names().contains(k),
    {
        proof {
            use_type_invariant(self);
            lemma_entry_map(self.entries@);
            assert forall|k: Seq<char>| #[trigger] self@.contains_key(k) <==> self.names().contains(
                k,
            ) by {
                if self@.contains_key(k) {
                    let i = choose|i: int|
                        0 <= i < self.entries@.len() && (#[trigger] self.entries@[i]).0@ == k;
                    assert(self.names()[i] == k);
                }
                if self.names().contains(k) {
                    let i = choose|i: int| 0 <= i < self.names().len() && self.names()[i] == k;
                    assert(self.entries@[i].0@ == k);
                }
            }
        }
        self.entries.len()
    }

    /// The names of the options, in no particular order.
    pub closed spec fn names(&self) -> Seq<Seq<char>> {
        Seq::new(self.entries@.len(), |i: int| self.entries@[i].0@)
    }

    /// The name at a position.
    pub fn name_at(&self, i: usize) -> (name: &str)
        requires
            i < self.names().len(),
        ensures
            name@ == self.names()[i as int],
    {
        self.entries[i].0.as_str()
    }
}

/// A flag option: set, and spelled `true`.
pub open spec fn flag(m: Map<Seq<char>, Seq<char>>, name: Seq<char>) -> bool {
    m.contains_key(name) && m[name] == "true"@
}

/// A number option, or `default` where it is not set or does not spell a number
/// of at most `max`.
pub open spec fn number(
    m: Map<Seq<char>, Seq<char>>,
    name: Seq<char>,
    default: int,
    max: int,
) -> int {
    if m.contains_key(name) && unsigned_value(m[name], max) is Some {
        unsigned_value(m[name], max)->0
    } else {
        default
    }
}

impl OptionsMap {
    /// A flag option. Anything but `true` is false.
    pub fn get_bool(&self, name: &str) -> (r: bool)
        ensures
            r == flag(self@, name@),
    {
        match self.get(name) {
            Some(v) => str_eq(v.as_str(), "true"),
            None => false,
        }
    }

    /// A number option, or the default.
    pub fn get_u64(&self, name: &str, default: u64) -> (r: u64)
        ensures
            r == number(self@, name@, default as int, u64::MAX as int),
    {
        match self.get(name) {
            Some(v) => match parse_unsigned(v.as_str(), u64::MAX) {
                Some(n) => n,
                None => default,
            },
            None => default,
        }
    }

    /// A number option that is a count, or the default.
    pub fn get_usize(&self, name: &str, default: usize) -> (r: usize)
        ensures
            r == number(self@, name@, default as int, usize::MAX as int),
    {
        match self.get(name) {
            Some(v) => match parse_unsigned(v.as_str(), usize::MAX as u64) {
                Some(n) => n as usize,
                None => default,
            },
            None => default,
        }
    }
}

/// A flag is set exactly where the option reads `true`; a number is what the option spells,
/// or the default where it is not set or spells no number that is not too large.
pub proof fn options_read_as_they_are_spelled(
    m: Map<Seq<char>, Seq<char>>,
    name: Seq<char>,
    default: int,
    max: int,
)
    ensures
        flag(m.insert(name, "true"@), name),
        forall|v: Seq<char>| v != "true"@ ==> !flag(#[trigger] m.insert(name, v), name),
        !flag(m.remove(name), name),
        number(m.remove(name), name, default, max) == default,
        forall|v: Seq<char>|
            (unsigned_value(v, max) matches Some(n) ==> number(
                #[trigger] m.insert(name, v),
                name,
                default,
                max,
            ) == n),
        forall|v: Seq<char>|
            unsigned_value(v, max) is None ==> number(
                #[trigger] m.insert(name, v),
                name,
                default,
                max,
            ) == default,
{
}

} // verus!
