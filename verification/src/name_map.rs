//! A map from names to values.

use vstd::prelude::*;

verus! {

/// A map from names to values, for few names at a time.
#[derive(Debug, Clone)]
pub struct NameMap<V> {
    entries: Vec<(String, V)>,
}

/// Whether an entry has this name.
spec fn has_name<V>(entries: Seq<(String, V)>, name: Seq<char>) -> bool {
    exists|i: int| 0 <= i < entries.len() && (#[trigger] entries[i]).0@ == name
}

/// Where the entry of this name is.
spec fn index_of<V>(entries: Seq<(String, V)>, name: Seq<char>) -> int {
    choose|i: int| 0 <= i < entries.len() && (#[trigger] entries[i]).0@ == name
}

/// The map that the entries make up.
spec fn map_of<V>(entries: Seq<(String, V)>) -> Map<Seq<char>, V> {
    Map::new(|name: Seq<char>| has_name(entries, name), |name: Seq<char>| {
        entries[index_of(entries, name)].1
    })
}

/// Whether no two entries have the same name.
spec fn names_differ<V>(entries: Seq<(String, V)>) -> bool {
    forall|i: int, j: int|
        0 <= i < j < entries.len() ==> (#[trigger] entries[i]).0@ != (#[trigger] entries[j]).0@
}

impl<V> View for NameMap<V> {
    type V = Map<Seq<char>, V>;

    closed spec fn view(&self) -> Map<Seq<char>, V> {
        map_of(self.entries@)
    }
}

/// What the map says of the name of an entry.
proof fn lemma_map_at<V>(entries: Seq<(String, V)>, i: int)
    requires
        names_differ(entries),
        0 <= i < entries.len(),
    ensures
        map_of(entries).contains_key(entries[i].0@),
        map_of(entries)[entries[i].0@] == entries[i].1,
{
    let name = entries[i].0@;
    assert(has_name(entries, name));
    let j = index_of(entries, name);
    assert(0 <= j < entries.len() && entries[j].0@ == name);
    assert(i == j) by {
        if i < j {
            assert(entries[i].0@ != entries[j].0@);
        } else if j < i {
            assert(entries[j].0@ != entries[i].0@);
        }
    }
}

/// What changing the value of an entry does to the map.
proof fn lemma_map_update<V>(entries: Seq<(String, V)>, i: int, entry: (String, V))
    requires
        names_differ(entries),
        0 <= i < entries.len(),
        entry.0@ == entries[i].0@,
    ensures
        names_differ(entries.update(i, entry)),
        map_of(entries.update(i, entry)) == map_of(entries).insert(entry.0@, entry.1),
{
    let after = entries.update(i, entry);
    assert forall|a: int, b: int| 0 <= a < b < after.len() implies (#[trigger] after[a]).0@ != (
    #[trigger] after[b]).0@ by {
        assert(after[a].0@ == entries[a].0@);
        assert(after[b].0@ == entries[b].0@);
    }
    assert forall|name: Seq<char>|
        #[trigger] map_of(after).contains_key(name) == map_of(entries).insert(
            entry.0@,
            entry.1,
        ).contains_key(name) by {
        if has_name(after, name) {
            let j = index_of(after, name);
            assert(entries[j].0@ == name);
        }
        if has_name(entries, name) {
            let j = index_of(entries, name);
            assert(after[j].0@ == name);
        }
        assert(after[i].0@ == entry.0@);
    }
    assert forall|name: Seq<char>| #[trigger] map_of(after).contains_key(name) implies map_of(
        after,
    )[name] == map_of(entries).insert(entry.0@, entry.1)[name] by {
        let j = index_of(after, name);
        lemma_map_at(after, j);
        lemma_map_at(entries, j);
    }
    assert(map_of(after) =~= map_of(entries).insert(entry.0@, entry.1));
}

/// What a new entry does to the map.
proof fn lemma_map_push<V>(entries: Seq<(String, V)>, entry: (String, V))
    requires
        names_differ(entries),
        !has_name(entries, entry.0@),
    ensures
        names_differ(entries.push(entry)),
        map_of(entries.push(entry)) == map_of(entries).insert(entry.0@, entry.1),
{
    let after = entries.push(entry);
    assert forall|a: int, b: int| 0 <= a < b < after.len() implies (#[trigger] after[a]).0@ != (
    #[trigger] after[b]).0@ by {
        assert(after[a] == entries[a]);
        if b == entries.len() {
            assert(entries[a].0@ != entry.0@);
        } else {
            assert(after[b] == entries[b]);
        }
    }
    assert forall|name: Seq<char>|
        #[trigger] map_of(after).contains_key(name) == map_of(entries).insert(
            entry.0@,
            entry.1,
        ).contains_key(name) by {
        if has_name(entries, name) {
            let j = index_of(entries, name);
            assert(after[j].0@ == name);
        }
        assert(after[entries.len() as int].0@ == entry.0@);
        if has_name(after, name) {
            let j = index_of(after, name);
            if j < entries.len() {
                assert(entries[j].0@ == name);
            }
        }
    }
    assert forall|name: Seq<char>| #[trigger] map_of(after).contains_key(name) implies map_of(
        after,
    )[name] == map_of(entries).insert(entry.0@, entry.1)[name] by {
        let j = index_of(after, name);
        lemma_map_at(after, j);
        if j < entries.len() {
            lemma_map_at(entries, j);
        }
    }
    assert(map_of(after) =~= map_of(entries).insert(entry.0@, entry.1));
}

/// What taking an entry out does to the map.
proof fn lemma_map_remove<V>(entries: Seq<(String, V)>, i: int)
    requires
        names_differ(entries),
        0 <= i < entries.len(),
    ensures
        names_differ(entries.remove(i)),
        map_of(entries.remove(i)) == map_of(entries).remove(entries[i].0@),
{
    let after = entries.remove(i);
    let gone = entries[i].0@;
    assert forall|a: int| 0 <= a < after.len() implies #[trigger] after[a] == entries[if a < i {
        a
    } else {
        a + 1
    }] by {}
    assert forall|a: int, b: int| 0 <= a < b < after.len() implies (#[trigger] after[a]).0@ != (
    #[trigger] after[b]).0@ by {}
    assert forall|name: Seq<char>|
        #[trigger] map_of(after).contains_key(name) == map_of(entries).remove(gone).contains_key(
            name,
        ) by {
        if has_name(entries, name) && name != gone {
            let j = index_of(entries, name);
            if j < i {
                assert(after[j].0@ == name);
            } else {
                assert(after[j - 1].0@ == name);
            }
        }
        if has_name(after, name) {
            let j = index_of(after, name);
            let k = if j < i {
                j
            } else {
                j + 1
            };
            assert(entries[k].0@ == name);
            assert(name != gone);
        }
    }
    assert forall|name: Seq<char>| #[trigger] map_of(after).contains_key(name) implies map_of(
        after,
    )[name] == map_of(entries).remove(gone)[name] by {
        let j = index_of(after, name);
        lemma_map_at(after, j);
        lemma_map_at(
            entries,
            if j < i {
                j
            } else {
                j + 1
            },
        );
    }
    assert(map_of(after) =~= map_of(entries).remove(gone));
}

impl<V> NameMap<V> {
    /// Whether no name occurs twice.
    pub closed spec fn wf(self) -> bool {
        names_differ(self.entries@)
    }

    /// A map without names.
    pub fn new() -> (map: Self)
        ensures
            map.wf(),
            map@ == Map::<Seq<char>, V>::empty(),
    {
        let map = NameMap { entries: Vec::new() };
        assert(map@ =~= Map::<Seq<char>, V>::empty());
        map
    }

    /// Where the entry of this name is.
    fn position(&self, name: &str) -> (position: Option<usize>)
        ensures
            match position {
                Some(i) => i < self.entries@.len() && self.entries@[i as int].0@ == name@,
                None => !has_name(self.entries@, name@),
            },
    {
        let mut i: usize = 0;
        while i < self.entries.len()
            invariant
                i <= self.entries@.len(),
                forall|j: int| 0 <= j < i ==> (#[trigger] self.entries@[j]).0@ != name@,
            decreases self.entries@.len() - i,
        {
            if *self.entries[i].0.as_str() == *name {
                return Some(i);
            }
            i = i + 1;
        }
        None
    }

    /// The value of a name.
    pub fn get(&self, name: &str) -> (value: Option<&V>)
        requires
            self.wf(),
        ensures
            match value {
                Some(value) => self@.contains_key(name@) && *value == self@[name@],
                None => !self@.contains_key(name@),
            },
    {
        match self.position(name) {
            Some(i) => {
                proof {
                    lemma_map_at(self.entries@, i as int);
                }
                Some(&self.entries[i].1)
            },
            None => None,
        }
    }

    /// Whether the map has a name.
    pub fn contains_key(&self, name: &str) -> (contained: bool)
        requires
            self.wf(),
        ensures
            contained == self@.contains_key(name@),
    {
        match self.position(name) {
            Some(i) => {
                proof {
                    lemma_map_at(self.entries@, i as int);
                }
                true
            },
            None => false,
        }
    }

    /// The place of a name's value. A name that is new gets `default`.
    pub fn or_insert(&mut self, name: String, default: V) -> (value: &mut V)
        requires
            old(self).wf(),
        ensures
            *value == if old(self)@.contains_key(name@) {
                old(self)@[name@]
            } else {
                default
            },
            final(self).wf(),
            final(self)@ == old(self)@.insert(name@, *final(value)),
    {
        let ghost before = self.entries@;
        match self.position(name.as_str()) {
            Some(i) => {
                proof {
                    lemma_map_at(before, i as int);
                    assert forall|value: V|
                        names_differ(
                            #[trigger] before.update(i as int, (before[i as int].0, value)),
                        ) && map_of(before.update(i as int, (before[i as int].0, value)))
                            == map_of(before).insert(name@, value) by {
                        lemma_map_update(before, i as int, (before[i as int].0, value));
                    }
                }
                &mut self.entries[i].1
            },
            None => {
                let last: usize = self.entries.len();
                self.entries.push((name, default));
                let ghost pushed = self.entries@;
                proof {
                    lemma_map_push(before, (name, default));
                    assert forall|value: V|
                        names_differ(#[trigger] pushed.update(last as int, (name, value)))
                            && map_of(pushed.update(last as int, (name, value))) == map_of(
                            before,
                        ).insert(name@, value) by {
                        assert(pushed.update(last as int, (name, value)) =~= before.push(
                            (name, value),
                        ));
                        lemma_map_push(before, (name, value));
                    }
                }
                &mut self.entries[last].1
            },
        }
    }

    /// Gives a name a value.
    pub fn insert(&mut self, name: String, value: V)
        requires
            old(self).wf(),
        ensures
            final(self).wf(),
            final(self)@ == old(self)@.insert(name@, value),
    {
        let ghost before = self.entries@;
        match self.position(name.as_str()) {
            Some(i) => {
                proof {
                    lemma_map_update(before, i as int, (name, value));
                }
                self.entries[i] = (name, value);
            },
            None => {
                proof {
                    lemma_map_push(before, (name, value));
                }
                self.entries.push((name, value));
            },
        }
    }

    /// Takes a name out of the map, with its value.
    pub fn remove(&mut self, name: &str) -> (value: Option<V>)
        requires
            old(self).wf(),
        ensures
            final(self).wf(),
            final(self)@ == old(self)@.remove(name@),
            match value {
                Some(value) => old(self)@.contains_key(name@) && value == old(self)@[name@],
                None => !old(self)@.contains_key(name@),
            },
    {
        let ghost before = self.entries@;
        match self.position(name) {
            Some(i) => {
                proof {
                    lemma_map_at(before, i as int);
                    lemma_map_remove(before, i as int);
                }
                let entry = self.entries.remove(i);
                Some(entry.1)
            },
            None => {
                assert(self@ =~= self@.remove(name@));
                None
            },
        }
    }
}

} // verus!
