//! Values kept under names. A map is never changed: putting a value in
//! gives a new map that shares the values of the old one.

use std::sync::Arc;
use vstd::prelude::*;

verus! {

/// The place of the entry named `name`, and the number of entries where
/// there is none.
pub open spec fn position<V>(entries: Seq<(Seq<char>, V)>, name: Seq<char>) -> int
    decreases entries.len(),
{
    if entries.len() == 0 {
        0
    } else {
        let before = position(entries.drop_last(), name);
        if before < entries.len() - 1 {
            before
        } else if entries.last().0 == name {
            entries.len() - 1
        } else {
            entries.len() as int
        }
    }
}

/// The value kept under `name`, if there is one.
pub open spec fn lookup<V>(entries: Seq<(Seq<char>, V)>, name: Seq<char>) -> Option<V> {
    if position(entries, name) < entries.len() {
        Some(entries[position(entries, name)].1)
    } else {
        None
    }
}

/// The entries with `value` kept under `name`: in the place of the entry of
/// that name if there is one, and else after the others.
pub open spec fn put<V>(entries: Seq<(Seq<char>, V)>, name: Seq<char>, value: V) -> Seq<
    (Seq<char>, V),
> {
    if position(entries, name) < entries.len() {
        entries.update(position(entries, name), (name, value))
    } else {
        entries.push((name, value))
    }
}

/// No name occurs twice.
pub open spec fn distinct<V>(entries: Seq<(Seq<char>, V)>) -> bool {
    forall|i: int, j: int| 0 <= i < j < entries.len() ==> entries[i].0 != entries[j].0
}

/// The place of a name is the first place that holds it.
pub proof fn lemma_position<V>(entries: Seq<(Seq<char>, V)>, name: Seq<char>)
    ensures
        0 <= position(entries, name) <= entries.len(),
        position(entries, name) < entries.len() ==> entries[position(entries, name)].0 == name,
        forall|i: int| 0 <= i < position(entries, name) ==> (#[trigger] entries[i]).0 != name,
    decreases entries.len(),
{
    if entries.len() > 0 {
        let before = entries.drop_last();
        lemma_position(before, name);
        assert forall|i: int| 0 <= i < position(entries, name) implies (#[trigger] entries[i]).0
            != name by {
            if i < before.len() {
                assert(before[i] == entries[i]);
            }
        }
        if position(before, name) < before.len() {
            assert(before[position(before, name)] == entries[position(before, name)]);
        }
    }
}

/// The first place that holds a name is the place of the name.
pub proof fn lemma_position_is<V>(entries: Seq<(Seq<char>, V)>, name: Seq<char>, p: int)
    requires
        0 <= p <= entries.len(),
        p < entries.len() ==> entries[p].0 == name,
        forall|i: int| 0 <= i < p ==> (#[trigger] entries[i]).0 != name,
    ensures
        position(entries, name) == p,
{
    lemma_position(entries, name);
    let q = position(entries, name);
    if q < p {
        assert(entries[q].0 != name);
    }
}

/// What a map holds after a value was put in: the new value under its
/// name, and under every other name what was there before. No name is held
/// twice.
pub proof fn lemma_put<V>(entries: Seq<(Seq<char>, V)>, name: Seq<char>, value: V, other: Seq<char>)
    requires
        distinct(entries),
    ensures
        distinct(put(entries, name, value)),
        lookup(put(entries, name, value), other) == if other == name {
            Some(value)
        } else {
            lookup(entries, other)
        },
{
    lemma_position(entries, name);
    lemma_position(entries, other);
    let p = position(entries, name);
    let q = position(entries, other);
    let after = put(entries, name, value);
    assert(distinct(after)) by {
        assert forall|i: int, j: int| 0 <= i < j < after.len() implies after[i].0 != after[j].0 by {
            if p < entries.len() {
                assert(entries[i].0 != entries[j].0);
            } else if j < entries.len() {
                assert(entries[i].0 != entries[j].0);
            } else {
                assert(entries[i].0 != name);
            }
        }
    }
    if other == name {
        assert forall|i: int| 0 <= i < p implies (#[trigger] after[i]).0 != name by {
            assert(entries[i].0 != name);
        }
        lemma_position_is(after, name, p);
    } else if q < entries.len() {
        assert forall|i: int| 0 <= i < q implies (#[trigger] after[i]).0 != other by {
            assert(entries[i].0 != other);
        }
        lemma_position_is(after, other, q);
    } else {
        assert forall|i: int| 0 <= i < after.len() implies (#[trigger] after[i]).0 != other by {
            if i < entries.len() {
                assert(entries[i].0 != other);
            }
        }
        lemma_position_is(after, other, after.len() as int);
    }
}

/// Two maps keep the same value under every name.
pub open spec fn same_names<V>(a: Seq<(Seq<char>, V)>, b: Seq<(Seq<char>, V)>) -> bool {
    forall|name: Seq<char>| lookup(a, name) == lookup(b, name)
}

/// Two values of different names can be put in in either order.
pub proof fn lemma_put_commutes<V>(
    entries: Seq<(Seq<char>, V)>,
    k1: Seq<char>,
    v1: V,
    k2: Seq<char>,
    v2: V,
)
    requires
        distinct(entries),
        k1 != k2,
    ensures
        same_names(put(put(entries, k1, v1), k2, v2), put(put(entries, k2, v2), k1, v1)),
{
    assert forall|name: Seq<char>|
        lookup(put(put(entries, k1, v1), k2, v2), name) == lookup(
            put(put(entries, k2, v2), k1, v1),
            name,
        ) by {
        lemma_put(entries, k1, v1, name);
        lemma_put(entries, k2, v2, name);
        lemma_put(put(entries, k1, v1), k2, v2, name);
        lemma_put(put(entries, k2, v2), k1, v1, name);
    }
}

/// The names and the values of `v`, as contracts see them.
pub open spec fn named<V>(v: Seq<(String, V)>) -> Seq<(Seq<char>, V)> {
    Seq::new(v.len(), |i: int| (v[i].0@, v[i].1))
}

/// The value that a shared reference holds.
pub open spec fn shared<V>(value: Arc<V>) -> V {
    *value
}

/// Values of one type, each kept under a name of its own.
pub struct NameMap<V> {
    entries: Vec<(String, Arc<V>)>,
}

impl<V> View for NameMap<V> {
    type V = Seq<(Seq<char>, V)>;

    /// The names and their values, in the order in which the names came.
    closed spec fn view(&self) -> Seq<(Seq<char>, V)> {
        Seq::new(self.entries@.len(), |i: int| (self.entries@[i].0@, *self.entries@[i].1))
    }
}

impl<V> NameMap<V> {
    /// No name is held twice.
    #[verifier::type_invariant]
    pub open spec fn is_distinct(&self) -> bool {
        distinct(self@)
    }

    /// The map that holds nothing.
    pub fn new() -> (map: NameMap<V>)
        ensures
            map@ == Seq::<(Seq<char>, V)>::empty(),
    {
        let map = NameMap { entries: Vec::new() };
        assert(map@ =~= Seq::<(Seq<char>, V)>::empty());
        map
    }

    /// The map that holds `entries`, each value under its name and in that
    /// order, if no name occurs twice among them.
    pub fn from_entries(entries: Vec<(String, V)>) -> (r: Option<NameMap<V>>)
        ensures
            r.is_some() <==> distinct(named(entries@)),
            r matches Some(map) ==> map@ == named(entries@),
    {
        let ghost all = named(entries@);
        let n = entries.len();
        for j in 0..n
            invariant
                n == entries@.len(),
                all == named(entries@),
                forall|a: int, b: int| 0 <= a < b < j ==> all[a].0 != all[b].0,
        {
            for i in 0..j
                invariant
                    j < n,
                    n == entries@.len(),
                    all == named(entries@),
                    forall|a: int| 0 <= a < i ==> all[a].0 != all[j as int].0,
            {
                if entries[i].0 == entries[j].0 {
                    assert(all[i as int].0 == all[j as int].0);
                    return None;
                }
            }
        }
        assert(distinct(all));
        let ghost given = entries@;
        let mut shared_entries: Vec<(String, Arc<V>)> = Vec::new();
        for entry in it: entries
            invariant
                it.seq() == given,
                shared_entries@.len() == it.index(),
                forall|a: int|
                    0 <= a < it.index() ==> (#[trigger] shared_entries@[a].0)@ == given[a].0@,
                forall|a: int|
                    0 <= a < it.index() ==> *(#[trigger] shared_entries@[a].1) == given[a].1,
        {
            let (name, value) = entry;
            shared_entries.push((name, Arc::new(value)));
        }
        proof {
            let after = Seq::new(
                shared_entries@.len(),
                |i: int| (shared_entries@[i].0@, *shared_entries@[i].1),
            );
            assert(after =~= all);
        }
        Some(NameMap { entries: shared_entries })
    }

    /// The number of names.
    pub fn len(&self) -> (n: usize)
        ensures
            n == self@.len(),
            distinct(self@),
    {
        proof {
            use_type_invariant(self);
        }
        self.entries.len()
    }

    /// The name in place `i`.
    pub fn name_at(&self, i: usize) -> (name: &String)
        requires
            i < self@.len(),
        ensures
            name@ == self@[i as int].0,
    {
        &self.entries[i].0
    }

    /// The value in place `i`.
    pub fn value_at(&self, i: usize) -> (value: &Arc<V>)
        requires
            i < self@.len(),
        ensures
            **value == self@[i as int].1,
    {
        &self.entries[i].1
    }

    /// The place of `name`, if the map holds it.
    pub fn find(&self, name: &String) -> (r: Option<usize>)
        ensures
            r.is_some() <==> position(self@, name@) < self@.len(),
            r matches Some(i) ==> i == position(self@, name@),
            distinct(self@),
    {
        proof {
            use_type_invariant(self);
        }
        let n = self.entries.len();
        for i in 0..n
            invariant
                n == self.entries@.len(),
                distinct(self@),
                forall|a: int| 0 <= a < i ==> (#[trigger] self@[a]).0 != name@,
        {
            if self.entries[i].0 == *name {
                proof {
                    lemma_position_is(self@, name@, i as int);
                }
                return Some(i);
            }
        }
        proof {
            lemma_position_is(self@, name@, n as int);
        }
        None
    }

    /// The value kept under `name`, if there is one.
    pub fn get(&self, name: &String) -> (r: Option<&Arc<V>>)
        ensures
            match r {
                Some(value) => lookup(self@, name@) == Some(**value),
                None => lookup(self@, name@).is_none(),
            },
    {
        match self.find(name) {
            Some(i) => Some(&self.entries[i].1),
            None => None,
        }
    }

    /// The map with `value` kept under `name`. The other values are shared
    /// with this map, which stays as it is.
    pub fn with(&self, name: String, value: Arc<V>) -> (map: NameMap<V>)
        ensures
            map@ == put(self@, name@, *value),
            distinct(map@),
    {
        let found = self.find(&name);
        let ghost key = name@;
        let ghost added = shared(value);
        let n = self.entries.len();
        let mut entries: Vec<(String, Arc<V>)> = Vec::new();
        for i in 0..n
            invariant
                n == self.entries@.len(),
                entries@.len() == i,
                found matches Some(p) ==> p < n,
                forall|a: int|
                    0 <= a < i ==> (#[trigger] entries@[a].0)@ == (if found == Some(a as usize) {
                        name@
                    } else {
                        self@[a].0
                    }),
                forall|a: int|
                    0 <= a < i ==> *(#[trigger] entries@[a].1) == (if found == Some(a as usize) {
                        *value
                    } else {
                        self@[a].1
                    }),
        {
            if found == Some(i) {
                entries.push((name.clone(), value.clone()));
            } else {
                entries.push((self.entries[i].0.clone(), self.entries[i].1.clone()));
            }
        }
        if found.is_none() {
            entries.push((name, value));
        }
        proof {
            let after = Seq::new(entries@.len(), |i: int| (entries@[i].0@, *entries@[i].1));
            assert(after =~= put(self@, key, added));
            lemma_put(self@, key, added, key);
        }
        NameMap { entries }
    }
}

} // verus!
