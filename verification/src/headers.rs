//! The header mapping of a response: names to values, each name at most
//! once, a later value for a name taking the place of an earlier one.

use vstd::prelude::*;

verus! {

/// A mapping from header names to header values. Names are compared
/// character by character, so they are case-sensitive.
#[derive(Debug)]
pub struct Headers {
    entries: Vec<(String, String)>,
}

/// Some entry of `es` has the name `k`.
spec fn has_name(es: Seq<(String, String)>, k: Seq<char>) -> bool {
    exists|i: int| 0 <= i < es.len() && (#[trigger] es[i]).0@ == k
}

/// The index of an entry of `es` with the name `k`.
spec fn index_of_name(es: Seq<(String, String)>, k: Seq<char>) -> int {
    choose|i: int| 0 <= i < es.len() && (#[trigger] es[i]).0@ == k
}

/// No two entries of `es` have the same name.
spec fn distinct_names(es: Seq<(String, String)>) -> bool {
    forall|i: int, j: int|
        0 <= i < j < es.len() ==> (#[trigger] es[i]).0@ != (#[trigger] es[j]).0@
}

/// The mapping that the entries `es` stand for.
spec fn entries_map(es: Seq<(String, String)>) -> Map<Seq<char>, Seq<char>> {
    Map::new(|k: Seq<char>| has_name(es, k), |k: Seq<char>| es[index_of_name(es, k)].1@)
}

/// Among entries with distinct names, each entry is what the mapping holds for its name.
proof fn lemma_entry(es: Seq<(String, String)>, i: int)
    requires
        distinct_names(es),
        0 <= i < es.len(),
    ensures
        has_name(es, es[i].0@),
        index_of_name(es, es[i].0@) == i,
        entries_map(es).contains_key(es[i].0@),
        entries_map(es)[es[i].0@] == es[i].1@,
{
}

/// Replacing the value of the entry that has the name `e.0` sets the
/// mapping's value for that name and keeps the names distinct.
proof fn lemma_replace(es: Seq<(String, String)>, i: int, e: (String, String))
    requires
        distinct_names(es),
        0 <= i < es.len(),
        es[i].0@ == e.0@,
    ensures
        distinct_names(es.update(i, e)),
        entries_map(es.update(i, e)) == entries_map(es).insert(e.0@, e.1@),
{
    let fs = es.update(i, e);
    assert(distinct_names(fs));
    assert forall|k: Seq<char>| has_name(fs, k) <==> (k == e.0@ || has_name(es, k)) by {
        if has_name(es, k) {
            assert(fs[index_of_name(es, k)].0@ == k);
        }
    }
    assert forall|k: Seq<char>| has_name(fs, k) implies #[trigger] entries_map(fs)[k]
        == entries_map(es).insert(e.0@, e.1@)[k] by {
        let j = index_of_name(fs, k);
        lemma_entry(fs, j);
        if j != i {
            lemma_entry(es, j);
        }
    }
}

/// Adding an entry with a name that no entry has sets the mapping's value
/// for that name and keeps the names distinct.
proof fn lemma_append(es: Seq<(String, String)>, e: (String, String))
    requires
        distinct_names(es),
        !has_name(es, e.0@),
    ensures
        distinct_names(es.push(e)),
        entries_map(es.push(e)) == entries_map(es).insert(e.0@, e.1@),
{
    let fs = es.push(e);
    assert(distinct_names(fs));
    assert forall|k: Seq<char>| has_name(fs, k) <==> (k == e.0@ || has_name(es, k)) by {
        if has_name(es, k) {
            assert(fs[index_of_name(es, k)].0@ == k);
        }
        if k == e.0@ {
            assert(fs[es.len() as int].0@ == k);
        }
    }
    assert forall|k: Seq<char>| has_name(fs, k) implies #[trigger] entries_map(fs)[k]
        == entries_map(es).insert(e.0@, e.1@)[k] by {
        let j = index_of_name(fs, k);
        lemma_entry(fs, j);
        if j < es.len() {
            lemma_entry(es, j);
        }
    }
}

impl View for Headers {
    type V = Map<Seq<char>, Seq<char>>;

    closed spec fn view(&self) -> Map<Seq<char>, Seq<char>> {
        entries_map(self.entries@)
    }
}

impl Headers {
    #[verifier::type_invariant]
    spec fn well_formed(&self) -> bool {
        distinct_names(self.entries@)
    }

    /// An empty mapping.
    pub fn new() -> (h: Headers)
        ensures
            h@ == Map::<Seq<char>, Seq<char>>::empty(),
    {
        let h = Headers { entries: Vec::new() };
        h
    }

    /// The value held for `name`, if there is one.
    pub fn get(&self, name: &str) -> (r: Option<&String>)
        ensures
            match r {
                Some(v) => self@.contains_key(name@) && v@ == self@[name@],
                None => !self@.contains_key(name@),
            },
    {
        let wanted = name.to_owned();
        let mut i: usize = 0;
        while i < self.entries.len()
            invariant
                i <= self.entries.len(),
                wanted@ == name@,
                forall|j: int| 0 <= j < i ==> (#[trigger] self.entries@[j]).0@ != name@,
            decreases self.entries.len() - i,
        {
            if self.entries[i].0 == wanted {
                proof {
                    use_type_invariant(self);
                    lemma_entry(self.entries@, i as int);
                }
                return Some(&self.entries[i].1);
            }
            i += 1;
        }
        None
    }

    /// Whether a value is held for `name`.
    pub fn contains_key(&self, name: &str) -> (b: bool)
        ensures
            b == self@.contains_key(name@),
    {
        self.get(name).is_some()
    }

    /// Sets the value for `name`, in place of the one held for it before, if any.
    pub fn insert(&mut self, name: String, value: String)
        ensures
            final(self)@ == old(self)@.insert(name@, value@),
    {
        proof {
            use_type_invariant(&*self);
        }
        let mut taken = Headers { entries: Vec::new() };
        core::mem::swap(self, &mut taken);
        let mut entries = taken.entries;
        let mut i: usize = 0;
        while i < entries.len()
            invariant
                i <= entries.len(),
                forall|j: int| 0 <= j < i ==> (#[trigger] entries@[j]).0@ != name@,
            ensures
                i <= entries.len(),
                forall|j: int| 0 <= j < i ==> (#[trigger] entries@[j]).0@ != name@,
                i < entries.len() ==> entries@[i as int].0@ == name@,
            decreases entries.len() - i,
        {
            if entries[i].0 == name {
                break ;
            }
            i += 1;
        }
        if i < entries.len() {
            proof {
                lemma_replace(entries@, i as int, (name, value));
            }
            entries.set(i, (name, value));
        } else {
            proof {
                lemma_append(entries@, (name, value));
            }
            entries.push((name, value));
        }
        *self = Headers { entries };
    }
}

} // verus!
