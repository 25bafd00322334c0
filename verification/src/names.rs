use vstd::prelude::*;

verus! {

/// The place of the first entry of `entries` under `name`, if there is one.
pub open spec fn position<T>(entries: Seq<(Seq<char>, T)>, name: Seq<char>) -> Option<int>
    decreases entries.len(),
{
    if entries.len() == 0 {
        None
    } else if entries[0].0 == name {
        Some(0)
    } else {
        match position(entries.drop_first(), name) {
            Some(i) => Some(i + 1),
            None => None,
        }
    }
}

/// What `entries` holds under `name`.
pub open spec fn lookup<T>(entries: Seq<(Seq<char>, T)>, name: Seq<char>) -> Option<T> {
    match position(entries, name) {
        Some(i) => Some(entries[i].1),
        None => None,
    }
}

/// `entries` with `value` under `name`: in the place of what was there, or
/// else at the end.
pub open spec fn put<T>(entries: Seq<(Seq<char>, T)>, name: Seq<char>, value: T) -> Seq<
    (Seq<char>, T),
> {
    match position(entries, name) {
        Some(i) => entries.update(i, (name, value)),
        None => entries.push((name, value)),
    }
}

/// No name stands twice in `entries`.
pub open spec fn distinct<T>(entries: Seq<(Seq<char>, T)>) -> bool {
    forall|i: int, j: int|
        0 <= i < j < entries.len() ==> (#[trigger] entries[i]).0 != (#[trigger] entries[j]).0
}

/// `position` finds the first entry under a name, and none where there is
/// no such entry.
pub proof fn lemma_position<T>(entries: Seq<(Seq<char>, T)>, name: Seq<char>)
    ensures
        match position(entries, name) {
            Some(i) => 0 <= i < entries.len() && entries[i].0 == name && forall|j: int|
                0 <= j < i ==> (#[trigger] entries[j]).0 != name,
            None => forall|j: int| 0 <= j < entries.len() ==> (#[trigger] entries[j]).0 != name,
        },
    decreases entries.len(),
{
    if entries.len() > 0 && entries[0].0 != name {
        let tail = entries.drop_first();
        lemma_position(tail, name);
        match position(tail, name) {
            Some(i) => {
                assert forall|j: int| 0 <= j < i + 1 implies (#[trigger] entries[j]).0 != name by {
                    if j > 0 {
                        assert(entries[j] == tail[j - 1]);
                    }
                }
            },
            None => {
                assert forall|j: int| 0 <= j < entries.len() implies (#[trigger] entries[j]).0
                    != name by {
                    if j > 0 {
                        assert(entries[j] == tail[j - 1]);
                    }
                }
            },
        }
    }
}

/// The first entry under a name is where `position` says.
pub proof fn lemma_position_is<T>(entries: Seq<(Seq<char>, T)>, name: Seq<char>, i: int)
    requires
        0 <= i <= entries.len(),
        forall|j: int| 0 <= j < i ==> (#[trigger] entries[j]).0 != name,
        i < entries.len() ==> entries[i].0 == name,
    ensures
        position(entries, name) == (if i < entries.len() {
            Some(i)
        } else {
            None
        }),
{
    lemma_position(entries, name);
    match position(entries, name) {
        Some(p) => {
            if p < i {
                assert(entries[p].0 != name);
            }
        },
        None => {
            if i < entries.len() {
                assert(entries[i].0 != name);
            }
        },
    }
}

/// What `put` stores is found again, and nothing else changes.
pub proof fn lemma_put<T>(entries: Seq<(Seq<char>, T)>, name: Seq<char>, value: T, other: Seq<char>)
    ensures
        lookup(put(entries, name, value), name) == Some(value),
        other != name ==> lookup(put(entries, name, value), other) == lookup(entries, other),
        other != name ==> position(put(entries, name, value), other) == position(entries, other),
        distinct(entries) ==> distinct(put(entries, name, value)),
        put(entries, name, value).len() == entries.len() + (if position(entries, name) is None {
            1int
        } else {
            0int
        }),
{
    let after = put(entries, name, value);
    lemma_position(entries, name);
    lemma_position(entries, other);
    match position(entries, name) {
        Some(i) => {
            assert forall|j: int| 0 <= j < i implies (#[trigger] after[j]).0 != name by {
                assert(after[j] == entries[j]);
            }
            lemma_position_is(after, name, i);
            if other != name {
                match position(entries, other) {
                    Some(k) => {
                        assert forall|j: int| 0 <= j < k implies (#[trigger] after[j]).0
                            != other by {
                            assert(entries[j].0 != other);
                        }
                        lemma_position_is(after, other, k);
                    },
                    None => {
                        assert forall|j: int| 0 <= j < after.len() implies (#[trigger] after[j]).0
                            != other by {
                            assert(entries[j].0 != other);
                        }
                        lemma_position_is(after, other, after.len() as int);
                    },
                }
            }
            if distinct(entries) {
                assert forall|a: int, b: int| 0 <= a < b < after.len() implies (
                #[trigger] after[a]).0 != (#[trigger] after[b]).0 by {
                    assert(entries[a].0 != entries[b].0);
                    assert(after[a].0 == entries[a].0);
                    assert(after[b].0 == entries[b].0);
                }
            }
        },
        None => {
            let end = entries.len() as int;
            assert forall|j: int| 0 <= j < end implies (#[trigger] after[j]).0 != name by {
                assert(after[j] == entries[j]);
            }
            lemma_position_is(after, name, end);
            if other != name {
                match position(entries, other) {
                    Some(k) => {
                        assert forall|j: int| 0 <= j < k implies (#[trigger] after[j]).0
                            != other by {
                            assert(after[j] == entries[j]);
                        }
                        lemma_position_is(after, other, k);
                    },
                    None => {
                        assert forall|j: int| 0 <= j < after.len() implies (#[trigger] after[j]).0
                            != other by {
                            if j < end {
                                assert(after[j] == entries[j]);
                            }
                        }
                        lemma_position_is(after, other, after.len() as int);
                    },
                }
            }
            if distinct(entries) {
                assert forall|a: int, b: int| 0 <= a < b < after.len() implies (
                #[trigger] after[a]).0 != (#[trigger] after[b]).0 by {
                    assert(after[a] == entries[a]);
                    if b < end {
                        assert(after[b] == entries[b]);
                    }
                }
            }
        },
    }
}

/// A table of values by name, in the order in which the names came.
#[derive(Debug, PartialEq, Eq)]
pub struct NameMap<V> {
    entries: Vec<(String, V)>,
}

impl<V: View> View for NameMap<V> {
    type V = Seq<(Seq<char>, V::V)>;

    closed spec fn view(&self) -> Seq<(Seq<char>, V::V)> {
        self.entries@.map_values(|entry: (String, V)| (entry.0@, entry.1@))
    }
}

impl<V: View> NameMap<V> {
    /// A table without entries.
    pub fn new() -> (table: Self)
        ensures
            table@ == Seq::<(Seq<char>, V::V)>::empty(),
    {
        let table = NameMap { entries: Vec::new() };
        assert(table@ =~= Seq::<(Seq<char>, V::V)>::empty());
        table
    }

    /// The number of entries.
    pub fn len(&self) -> (count: usize)
        ensures
            count == self@.len(),
    {
        self.entries.len()
    }

    /// Whether the table has no entries.
    pub fn is_empty(&self) -> (empty: bool)
        ensures
            empty == (self@.len() == 0),
    {
        self.entries.len() == 0
    }

    /// The place of the first entry under `name`.
    fn find(&self, name: &str) -> (found: Option<usize>)
        ensures
            match found {
                Some(i) => position(self@, name@) == Some(i as int) && i < self.entries.len(),
                None => position(self@, name@) is None,
            },
    {
        let mut i: usize = 0;
        while i < self.entries.len()
            invariant
                i <= self.entries.len(),
                forall|j: int| 0 <= j < i ==> (#[trigger] self@[j]).0 != name@,
            decreases self.entries.len() - i,
        {
            if self.entries[i].0.as_str().eq(name) {
                proof {
                    lemma_position_is(self@, name@, i as int);
                }
                return Some(i);
            }
            i = i + 1;
        }
        proof {
            lemma_position_is(self@, name@, i as int);
        }
        None
    }

    /// The value under `name`.
    pub fn get(&self, name: &str) -> (value: Option<&V>)
        ensures
            match value {
                Some(v) => lookup(self@, name@) == Some(v@),
                None => lookup(self@, name@) is None,
            },
    {
        match self.find(name) {
            Some(i) => Some(&self.entries[i].1),
            None => None,
        }
    }

    /// Whether there is a value under `name`.
    pub fn contains_key(&self, name: &str) -> (found: bool)
        ensures
            found == lookup(self@, name@).is_some(),
    {
        self.find(name).is_some()
    }

    /// The name and the value of the entry at `index`, in the order in which
    /// the names came.
    pub fn entry(&self, index: usize) -> (entry: Option<(&str, &V)>)
        ensures
            match entry {
                Some((name, value)) => index < self@.len() && self@[index as int] == (
                    name@,
                    value@,
                ),
                None => index >= self@.len(),
            },
    {
        if index < self.entries.len() {
            Some((self.entries[index].0.as_str(), &self.entries[index].1))
        } else {
            None
        }
    }

    /// Puts `value` under `name`, in the place of what was there.
    pub fn insert(&mut self, name: String, value: V)
        ensures
            final(self)@ == put(old(self)@, name@, value@),
    {
        match self.find(name.as_str()) {
            Some(i) => {
                self.entries.set(i, (name, value));
                assert(self@ =~= put(old(self)@, name@, value@));
            },
            None => {
                self.entries.push((name, value));
                assert(self@ =~= put(old(self)@, name@, value@));
            },
        }
    }
}

} // verus!
