//! The header map of a request: header names mapped to header values.
use crate::text::str_eq;
use vstd::prelude::*;
use vstd::set_lib::lemma_subset_equality;

verus! {

/// No two entries carry the same name.
spec fn distinct_names(entries: Seq<(String, String)>) -> bool {
    forall|i: int, j: int|
        0 <= i < j < entries.len() ==> (#[trigger] entries[i]).0@ != (#[trigger] entries[j]).0@
}

/// Some entry carries the name `name`.
spec fn has_name(entries: Seq<(String, String)>, name: Seq<char>) -> bool {
    exists|i: int| 0 <= i < entries.len() && (#[trigger] entries[i]).0@ == name
}

/// The position of an entry that carries the name `name`.
spec fn position_of(entries: Seq<(String, String)>, name: Seq<char>) -> int {
    choose|i: int| 0 <= i < entries.len() && (#[trigger] entries[i]).0@ == name
}

/// The map that a list of entries stands for.
spec fn map_of(entries: Seq<(String, String)>) -> Map<Seq<char>, Seq<char>> {
    Map::new(
        |name: Seq<char>| has_name(entries, name),
        |name: Seq<char>| entries[position_of(entries, name)].1@,
    )
}

/// With distinct names, each entry is what the map holds under its name.
proof fn lemma_map_of_entry(entries: Seq<(String, String)>, i: int)
    requires
        distinct_names(entries),
        0 <= i < entries.len(),
    ensures
        map_of(entries).contains_key(entries[i].0@),
        map_of(entries)[entries[i].0@] == entries[i].1@,
{
    let name = entries[i].0@;
    let p = position_of(entries, name);
    assert(entries[p].0@ == name);
    if p < i {
        assert(entries[p].0@ != entries[i].0@);
    } else if i < p {
        assert(entries[i].0@ != entries[p].0@);
    }
}

/// With distinct names, the map holds as many names as there are entries.
proof fn lemma_map_of_len(entries: Seq<(String, String)>)
    requires
        distinct_names(entries),
    ensures
        map_of(entries).dom().finite(),
        map_of(entries).len() == entries.len(),
    decreases entries.len(),
{
    if entries.len() == 0 {
        assert(map_of(entries).dom() =~= Set::<Seq<char>>::empty());
    } else {
        let front = entries.drop_last();
        let last = entries.last();
        assert forall|i: int, j: int| 0 <= i < j < front.len() implies (#[trigger] front[i]).0@ != (
        #[trigger] front[j]).0@ by {
            assert(entries[i].0@ != entries[j].0@);
        }
        lemma_map_of_len(front);
        assert(!has_name(front, last.0@)) by {
            if has_name(front, last.0@) {
                let p = position_of(front, last.0@);
                assert(entries[p].0@ != entries[entries.len() - 1].0@);
            }
        }
        assert(map_of(entries).dom() =~= map_of(front).dom().insert(last.0@)) by {
            assert forall|name: Seq<char>| has_name(entries, name) <==> (has_name(front, name)
                || name == last.0@) by {
                if has_name(entries, name) {
                    let p = position_of(entries, name);
                    if p < front.len() {
                        assert(front[p].0@ == name);
                    }
                }
                if has_name(front, name) {
                    let p = position_of(front, name);
                    assert(entries[p].0@ == name);
                }
                if name == last.0@ {
                    assert(entries[entries.len() - 1].0@ == name);
                }
            }
        }
    }
}

/// Header names mapped to header values. A name occurs at most once; the
/// order in which names were inserted carries no meaning.
#[derive(Debug)]
pub struct HeaderMap {
    entries: Vec<(String, String)>,
}

impl View for HeaderMap {
    type V = Map<Seq<char>, Seq<char>>;

    closed spec fn view(&self) -> Map<Seq<char>, Seq<char>> {
        map_of(self.entries@)
    }
}

impl HeaderMap {
    #[verifier::type_invariant]
    spec fn well_formed(self) -> bool {
        distinct_names(self.entries@)
    }

    /// A map without headers.
    pub fn new() -> (m: Self)
        ensures
            m@ == Map::<Seq<char>, Seq<char>>::empty(),
    {
        let m = HeaderMap { entries: Vec::new() };
        assert(m@ =~= Map::<Seq<char>, Seq<char>>::empty());
        m
    }

    /// The position of the entry named `name`, if there is one.
    fn position(&self, name: &str) -> (r: Option<usize>)
        ensures
            match r {
                Some(i) => i < self.entries@.len() && self.entries@[i as int].0@ == name@,
                None => !has_name(self.entries@, name@),
            },
    {
        let n = self.entries.len();
        let mut i: usize = 0;
        while i < n
            invariant
                i <= n,
                n == self.entries@.len(),
                forall|j: int| 0 <= j < i ==> (#[trigger] self.entries@[j]).0@ != name@,
            decreases n - i,
        {
            if str_eq(self.entries[i].0.as_str(), name) {
                return Some(i);
            }
            i += 1;
        }
        None
    }

    /// The number of headers.
    pub fn len(&self) -> (n: usize)
        ensures
            self@.dom().finite(),
            n == self@.len(),
    {
        proof {
            use_type_invariant(self);
            lemma_map_of_len(self.entries@);
        }
        self.entries.len()
    }

    /// Tells whether the map holds no header.
    pub fn is_empty(&self) -> (b: bool)
        ensures
            b == (self@ == Map::<Seq<char>, Seq<char>>::empty()),
    {
        proof {
            use_type_invariant(self);
            lemma_map_of_len(self.entries@);
            if self.entries@.len() == 0 {
                assert(self@ =~= Map::<Seq<char>, Seq<char>>::empty());
            }
        }
        self.entries.len() == 0
    }

    /// Tells whether a header named `name` is present.
    pub fn contains_key(&self, name: &str) -> (b: bool)
        ensures
            b == self@.contains_key(name@),
    {
        self.position(name).is_some()
    }

    /// The value of the header named `name`, if it is present.
    pub fn get(&self, name: &str) -> (r: Option<&String>)
        ensures
            match r {
                Some(value) => self@.contains_key(name@) && value@ == self@[name@],
                None => !self@.contains_key(name@),
            },
    {
        match self.position(name) {
            Some(i) => {
                proof {
                    use_type_invariant(self);
                    lemma_map_of_entry(self.entries@, i as int);
                }
                Some(&self.entries[i].1)
            },
            None => None,
        }
    }

    /// Sets the header named `name` to `value`. A value that stood under
    /// that name is replaced.
    pub fn insert(&mut self, name: String, value: String)
        ensures
            final(self)@ == old(self)@.insert(name@, value@),
    {
        proof {
            use_type_invariant(&*self);
        }
        let ghost before = self.entries@;
        let ghost key = name@;
        let ghost val = value@;
        let found = self.position(name.as_str());
        let mut entries: Vec<(String, String)> = Vec::new();
        core::mem::swap(&mut self.entries, &mut entries);
        match found {
            Some(i) => {
                entries.set(i, (name, value));
                proof {
                    let after = entries@;
                    assert forall|a: int, b: int| 0 <= a < b < after.len() implies (
                    #[trigger] after[a]).0@ != (#[trigger] after[b]).0@ by {
                        assert(before[a].0@ != before[b].0@);
                    }
                    assert forall|k: Seq<char>| has_name(after, k) <==> has_name(before, k) by {
                        if has_name(after, k) {
                            let p = position_of(after, k);
                            assert(before[p].0@ == k);
                        }
                        if has_name(before, k) {
                            let p = position_of(before, k);
                            assert(after[p].0@ == k);
                        }
                    }
                    assert(has_name(before, key)) by {
                        assert(before[i as int].0@ == key);
                    }
                    assert forall|k: Seq<char>| has_name(after, k) implies #[trigger] map_of(
                        after,
                    )[k] == map_of(before).insert(key, val)[k] by {
                        let p = position_of(after, k);
                        lemma_map_of_entry(after, p);
                        lemma_map_of_entry(before, p);
                    }
                    assert(map_of(after) =~= map_of(before).insert(key, val));
                }
            },
            None => {
                entries.push((name, value));
                proof {
                    let after = entries@;
                    assert forall|a: int, b: int| 0 <= a < b < after.len() implies (
                    #[trigger] after[a]).0@ != (#[trigger] after[b]).0@ by {
                        if b < before.len() {
                            assert(before[a].0@ != before[b].0@);
                        } else {
                            assert(before[a].0@ != key);
                        }
                    }
                    assert forall|k: Seq<char>| has_name(after, k) <==> (has_name(before, k) || k
                        == key) by {
                        if has_name(after, k) {
                            let p = position_of(after, k);
                            if p < before.len() {
                                assert(before[p].0@ == k);
                            }
                        }
                        if has_name(before, k) {
                            let p = position_of(before, k);
                            assert(after[p].0@ == k);
                        }
                        if k == key {
                            assert(after[after.len() - 1].0@ == k);
                        }
                    }
                    assert forall|k: Seq<char>| has_name(after, k) implies #[trigger] map_of(
                        after,
                    )[k] == map_of(before).insert(key, val)[k] by {
                        let p = position_of(after, k);
                        lemma_map_of_entry(after, p);
                        if p < before.len() {
                            lemma_map_of_entry(before, p);
                        }
                    }
                    assert(map_of(after) =~= map_of(before).insert(key, val));
                }
            },
        }
        core::mem::swap(&mut self.entries, &mut entries);
    }
}

impl vstd::std_specs::cmp::PartialEqSpecImpl for HeaderMap {
    open spec fn obeys_eq_spec() -> bool {
        true
    }

    open spec fn eq_spec(&self, other: &HeaderMap) -> bool {
        self@ == other@
    }
}

impl PartialEq for HeaderMap {
    /// Two header maps are equal when they hold the same names with the
    /// same values, in whatever order these were inserted.
    fn eq(&self, other: &HeaderMap) -> (r: bool) {
        proof {
            use_type_invariant(self);
            use_type_invariant(other);
            lemma_map_of_len(self.entries@);
            lemma_map_of_len(other.entries@);
        }
        let n = self.entries.len();
        if n != other.entries.len() {
            return false;
        }
        let mut i: usize = 0;
        while i < n
            invariant
                i <= n,
                n == self.entries@.len(),
                distinct_names(self.entries@),
                forall|j: int|
                    0 <= j < i ==> other@.contains_key((#[trigger] self.entries@[j]).0@)
                        && other@[self.entries@[j].0@] == self.entries@[j].1@,
            decreases n - i,
        {
            proof {
                lemma_map_of_entry(self.entries@, i as int);
            }
            match other.get(self.entries[i].0.as_str()) {
                Some(value) => {
                    if !str_eq(value.as_str(), self.entries[i].1.as_str()) {
                        return false;
                    }
                },
                None => {
                    return false;
                },
            }
            i += 1;
        }
        proof {
            assert forall|name: Seq<char>| self@.contains_key(name) implies other@.contains_key(
                name,
            ) && other@[name] == self@[name] by {
                let p = position_of(self.entries@, name);
                lemma_map_of_entry(self.entries@, p);
            }
            assert(self@.dom().subset_of(other@.dom()));
            lemma_subset_equality(self@.dom(), other@.dom());
            assert(self@ =~= other@);
        }
        true
    }
}

} // verus!
