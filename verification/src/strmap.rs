//! Associations from string keys to values, in insertion order.
//!
//! A `StrMap` holds each key once and remembers the order in which the keys
//! came. Its contents are specified as an association list, a sequence of
//! pairs of a key and a value; the functions of this module that take such a
//! list say what the map operations mean on it.

use vstd::prelude::*;

verus! {

/// Whether some entry of `list` has the key `key`.
pub open spec fn has_key<V>(list: Seq<(Seq<char>, V)>, key: Seq<char>) -> bool {
    exists|i: int| 0 <= i < list.len() && (#[trigger] list[i]).0 == key
}

/// The position of an entry of `list` that has the key `key`.
pub open spec fn index_of_key<V>(list: Seq<(Seq<char>, V)>, key: Seq<char>) -> int {
    choose|i: int| 0 <= i < list.len() && (#[trigger] list[i]).0 == key
}

/// The value that `list` holds for `key`, if it holds one.
pub open spec fn lookup<V>(list: Seq<(Seq<char>, V)>, key: Seq<char>) -> Option<V> {
    if has_key(list, key) {
        Some(list[index_of_key(list, key)].1)
    } else {
        None
    }
}

/// No two entries of `list` have the same key.
pub open spec fn distinct_keys<V>(list: Seq<(Seq<char>, V)>) -> bool {
    forall|i: int, j: int|
        0 <= i < j < list.len() ==> (#[trigger] list[i]).0 != (#[trigger] list[j]).0
}

/// The finite map that `list` stands for.
pub open spec fn as_map<V>(list: Seq<(Seq<char>, V)>) -> Map<Seq<char>, V> {
    Map::new(|k: Seq<char>| has_key(list, k), |k: Seq<char>| list[index_of_key(list, k)].1)
}

/// `list` with `value` stored under `key`: in place of the old value where
/// the key was present, at the end where it was not.
pub open spec fn with_entry<V>(list: Seq<(Seq<char>, V)>, key: Seq<char>, value: V) -> Seq<
    (Seq<char>, V),
> {
    if has_key(list, key) {
        list.update(index_of_key(list, key), (key, value))
    } else {
        list.push((key, value))
    }
}

/// `list` without the entry for `key`.
pub open spec fn without_key<V>(list: Seq<(Seq<char>, V)>, key: Seq<char>) -> Seq<(Seq<char>, V)> {
    if has_key(list, key) {
        list.remove(index_of_key(list, key))
    } else {
        list
    }
}

/// `list` after the entries of `more` were stored in it one by one, in their
/// order.
pub open spec fn with_entries<V>(list: Seq<(Seq<char>, V)>, more: Seq<(Seq<char>, V)>) -> Seq<
    (Seq<char>, V),
>
    decreases more.len(),
{
    if more.len() == 0 {
        list
    } else {
        with_entry(with_entries(list, more.drop_last()), more.last().0, more.last().1)
    }
}

/// In a list of distinct keys, a key is found where it stands.
pub proof fn lemma_lookup_at<V>(list: Seq<(Seq<char>, V)>, i: int)
    requires
        distinct_keys(list),
        0 <= i < list.len(),
    ensures
        has_key(list, list[i].0),
        index_of_key(list, list[i].0) == i,
        lookup(list, list[i].0) == Some(list[i].1),
{
    let j = index_of_key(list, list[i].0);
    assert(0 <= j < list.len() && list[j].0 == list[i].0);
    if j < i {
        assert(list[j].0 != list[i].0);
    } else if i < j {
        assert(list[i].0 != list[j].0);
    }
}

/// Storing under a key keeps the keys distinct and acts on the map as an
/// insertion.
pub proof fn lemma_with_entry<V>(list: Seq<(Seq<char>, V)>, key: Seq<char>, value: V)
    requires
        distinct_keys(list),
    ensures
        distinct_keys(with_entry(list, key, value)),
        as_map(with_entry(list, key, value)) == as_map(list).insert(key, value),
        lookup(with_entry(list, key, value), key) == Some(value),
        forall|k: Seq<char>| k != key ==> has_key(with_entry(list, key, value), k) == has_key(list, k),
        forall|k: Seq<char>|
            k != key ==> lookup(with_entry(list, key, value), k) == lookup(list, k),
{
    let next = with_entry(list, key, value);
    let at = if has_key(list, key) {
        index_of_key(list, key)
    } else {
        list.len() as int
    };
    assert(0 <= at < next.len() && next[at] == (key, value));
    assert forall|i: int| 0 <= i < next.len() && i != at implies next[i] == list[i]
        && next[i].0 != key by {
        assert(next[i] == list[i]);
        if has_key(list, key) {
            lemma_lookup_at(list, at);
            if i < at {
                assert(list[i].0 != list[at].0);
            } else {
                assert(list[at].0 != list[i].0);
            }
        } else {
            assert(list[i].0 != key);
        }
    }
    assert(distinct_keys(next)) by {
        assert forall|i: int, j: int| 0 <= i < j < next.len() implies next[i].0 != next[j].0 by {
            if i != at && j != at {
                assert(list[i].0 != list[j].0);
            }
        }
    }
    lemma_lookup_at(next, at);
    assert forall|k: Seq<char>| k != key implies has_key(next, k) == has_key(list, k)
        && lookup(next, k) == lookup(list, k) by {
        if has_key(list, k) {
            let i = index_of_key(list, k);
            assert(next[i] == list[i]);
            lemma_lookup_at(list, i);
            lemma_lookup_at(next, i);
        }
        if has_key(next, k) {
            let i = index_of_key(next, k);
            assert(next[i] == list[i]);
            lemma_lookup_at(list, i);
            lemma_lookup_at(next, i);
        }
    }
    assert(as_map(next) =~= as_map(list).insert(key, value)) by {
        assert forall|k: Seq<char>| as_map(next).dom().contains(k) <==> as_map(list).insert(
            key,
            value,
        ).dom().contains(k) by {
            if k != key {
                assert(has_key(next, k) == has_key(list, k));
            }
        }
        assert forall|k: Seq<char>| as_map(next).dom().contains(k) implies as_map(next)[k]
            == as_map(list).insert(key, value)[k] by {
            if k != key {
                assert(lookup(next, k) == lookup(list, k));
            }
        }
    }
}

/// Removing a key keeps the keys distinct and acts on the map as a removal.
pub proof fn lemma_without_key<V>(list: Seq<(Seq<char>, V)>, key: Seq<char>)
    requires
        distinct_keys(list),
    ensures
        distinct_keys(without_key(list, key)),
        !has_key(without_key(list, key), key),
        as_map(without_key(list, key)) == as_map(list).remove(key),
        forall|k: Seq<char>| k != key ==> lookup(without_key(list, key), k) == lookup(list, k),
{
    let next = without_key(list, key);
    if has_key(list, key) {
        let at = index_of_key(list, key);
        lemma_lookup_at(list, at);
        assert forall|i: int| 0 <= i < next.len() implies next[i] == list[if i < at {
            i
        } else {
            i + 1
        }] && next[i].0 != key by {
            let src = if i < at {
                i
            } else {
                i + 1
            };
            assert(next[i] == list[src]);
            if src < at {
                assert(list[src].0 != list[at].0);
            } else {
                assert(list[at].0 != list[src].0);
            }
        }
        assert(distinct_keys(next)) by {
            assert forall|i: int, j: int| 0 <= i < j < next.len() implies next[i].0
                != next[j].0 by {
                let si = if i < at {
                    i
                } else {
                    i + 1
                };
                let sj = if j < at {
                    j
                } else {
                    j + 1
                };
                assert(list[si].0 != list[sj].0);
            }
        }
        assert forall|k: Seq<char>| k != key implies has_key(next, k) == has_key(list, k)
            && lookup(next, k) == lookup(list, k) by {
            if has_key(list, k) {
                let i = index_of_key(list, k);
                let d = if i < at {
                    i
                } else {
                    i - 1
                };
                assert(next[d] == list[i]);
                lemma_lookup_at(list, i);
                lemma_lookup_at(next, d);
            }
            if has_key(next, k) {
                let d = index_of_key(next, k);
                let i = if d < at {
                    d
                } else {
                    d + 1
                };
                assert(next[d] == list[i]);
                lemma_lookup_at(list, i);
                lemma_lookup_at(next, d);
            }
        }
        assert(as_map(next) =~= as_map(list).remove(key)) by {
            assert forall|k: Seq<char>| as_map(next).dom().contains(k) <==> as_map(list).remove(
                key,
            ).dom().contains(k) by {
                if k != key {
                    assert(has_key(next, k) == has_key(list, k));
                }
            }
            assert forall|k: Seq<char>| as_map(next).dom().contains(k) implies as_map(next)[k]
                == as_map(list).remove(key)[k] by {
                if k != key {
                    assert(lookup(next, k) == lookup(list, k));
                }
            }
        }
    } else {
        assert(as_map(next) =~= as_map(list).remove(key));
    }
}

/// Storing a list of entries keeps the keys distinct; on the maps it is the
/// union in which the stored entries win.
pub proof fn lemma_with_entries<V>(list: Seq<(Seq<char>, V)>, more: Seq<(Seq<char>, V)>)
    requires
        distinct_keys(list),
        distinct_keys(more),
    ensures
        distinct_keys(with_entries(list, more)),
        as_map(with_entries(list, more)) == as_map(list).union_prefer_right(as_map(more)),
    decreases more.len(),
{
    if more.len() == 0 {
        assert(as_map(list) =~= as_map(list).union_prefer_right(as_map(more)));
    } else {
        let front = more.drop_last();
        let last = more.last();
        assert(distinct_keys(front)) by {
            assert forall|i: int, j: int| 0 <= i < j < front.len() implies front[i].0
                != front[j].0 by {
                assert(more[i].0 != more[j].0);
            }
        }
        lemma_with_entries(list, front);
        lemma_with_entry(with_entries(list, front), last.0, last.1);
        lemma_lookup_at(more, more.len() - 1);
        assert forall|k: Seq<char>| k != last.0 implies has_key(more, k) == has_key(front, k)
            && lookup(more, k) == lookup(front, k) by {
            if has_key(more, k) {
                let i = index_of_key(more, k);
                assert(front[i] == more[i]);
                lemma_lookup_at(more, i);
                lemma_lookup_at(front, i);
            }
            if has_key(front, k) {
                let i = index_of_key(front, k);
                assert(front[i] == more[i]);
                lemma_lookup_at(more, i);
                lemma_lookup_at(front, i);
            }
        }
        let left = as_map(with_entries(list, more));
        let right = as_map(list).union_prefer_right(as_map(more));
        assert(left =~= right) by {
            assert forall|k: Seq<char>| left.dom().contains(k) <==> right.dom().contains(k) by {
                if k != last.0 {
                    assert(has_key(more, k) == has_key(front, k));
                }
            }
            assert forall|k: Seq<char>| left.dom().contains(k) implies left[k] == right[k] by {
                if k != last.0 {
                    assert(lookup(more, k) == lookup(front, k));
                }
            }
        }
    }
}

/// Storing twice under one key leaves what storing the second value alone
/// leaves.
pub proof fn lemma_with_entry_twice<V>(list: Seq<(Seq<char>, V)>, key: Seq<char>, first: V, second: V)
    requires
        distinct_keys(list),
    ensures
        with_entry(with_entry(list, key, first), key, second) == with_entry(list, key, second),
{
    let once = with_entry(list, key, first);
    lemma_with_entry(list, key, first);
    let at = if has_key(list, key) {
        index_of_key(list, key)
    } else {
        list.len() as int
    };
    assert(once[at] == (key, first));
    lemma_lookup_at(once, at);
    assert(with_entry(once, key, second) =~= with_entry(list, key, second));
}

/// `list` with each value replaced by its view.
pub open spec fn deep<V: View>(list: Seq<(Seq<char>, V)>) -> Seq<(Seq<char>, V::V)> {
    Seq::new(list.len(), |i: int| (list[i].0, list[i].1@))
}

/// Taking views changes neither the keys nor where they stand.
pub proof fn lemma_deep<V: View>(list: Seq<(Seq<char>, V)>)
    requires
        distinct_keys(list),
    ensures
        distinct_keys(deep(list)),
        forall|k: Seq<char>| has_key(deep(list), k) == has_key(list, k),
        forall|k: Seq<char>|
            has_key(list, k) ==> index_of_key(deep(list), k) == index_of_key(list, k) && lookup(
                deep(list),
                k,
            ) == Some(lookup(list, k)->0@),
{
    let views = deep(list);
    assert forall|i: int, j: int| 0 <= i < j < views.len() implies views[i].0 != views[j].0 by {
        assert(list[i].0 != list[j].0);
    }
    assert forall|k: Seq<char>| has_key(views, k) == has_key(list, k) by {
        if has_key(views, k) {
            let i = index_of_key(views, k);
            assert(list[i].0 == k);
        }
        if has_key(list, k) {
            let i = index_of_key(list, k);
            assert(views[i].0 == k);
        }
    }
    assert forall|k: Seq<char>| has_key(list, k) implies index_of_key(views, k) == index_of_key(
        list,
        k,
    ) && lookup(views, k) == Some(lookup(list, k)->0@) by {
        let i = index_of_key(list, k);
        assert(views[i].0 == k);
        lemma_lookup_at(views, i);
        lemma_lookup_at(list, i);
    }
}

/// Storing an entry and taking views can be done in either order.
pub proof fn lemma_deep_with_entry<V: View>(list: Seq<(Seq<char>, V)>, key: Seq<char>, value: V)
    requires
        distinct_keys(list),
    ensures
        deep(with_entry(list, key, value)) == with_entry(deep(list), key, value@),
{
    lemma_deep(list);
    assert(deep(with_entry(list, key, value)) =~= with_entry(deep(list), key, value@));
}

/// Storing a list of entries and taking views can be done in either order.
pub proof fn lemma_deep_with_entries<V: View>(
    list: Seq<(Seq<char>, V)>,
    more: Seq<(Seq<char>, V)>,
)
    requires
        distinct_keys(list),
    ensures
        distinct_keys(with_entries(list, more)),
        deep(with_entries(list, more)) == with_entries(deep(list), deep(more)),
    decreases more.len(),
{
    if more.len() > 0 {
        let front = more.drop_last();
        lemma_deep_with_entries(list, front);
        lemma_with_entry(with_entries(list, front), more.last().0, more.last().1);
        lemma_deep_with_entry(with_entries(list, front), more.last().0, more.last().1);
        assert(deep(more).drop_last() =~= deep(front));
    }
}

/// A map from string keys to values that keeps its keys in insertion order.
#[derive(Debug)]
pub struct StrMap<V> {
    pub(crate) entries: Vec<(String, V)>,
}

impl<V> StrMap<V> {
    /// The entries in insertion order, each key as its sequence of characters.
    pub closed spec fn entries(self) -> Seq<(Seq<char>, V)> {
        Seq::new(self.entries@.len(), |i: int| (self.entries@[i].0@, self.entries@[i].1))
    }

    /// Every key occurs once.
    #[verifier::type_invariant]
    pub open spec fn wf(self) -> bool {
        distinct_keys(self.entries())
    }

    /// The entries as `entries` gives them, stated of the stored vector.
    pub(crate) proof fn lemma_entries(self)
        ensures
            self.entries().len() == self.entries@.len(),
            forall|i: int|
                0 <= i < self.entries@.len() ==> (#[trigger] self.entries()[i]) == (
                    self.entries@[i].0@,
                    self.entries@[i].1,
                ),
    {
    }

    /// Creates an empty map.
    pub fn new() -> (map: Self)
        ensures
            map.entries() == Seq::<(Seq<char>, V)>::empty(),
    {
        let map = StrMap { entries: Vec::new() };
        assert(map.entries() =~= Seq::<(Seq<char>, V)>::empty());
        map
    }

    /// The number of entries.
    pub fn len(&self) -> (n: usize)
        ensures
            n == self.entries().len(),
    {
        self.entries.len()
    }

    /// Whether the map holds no entry.
    pub fn is_empty(&self) -> (empty: bool)
        ensures
            empty == (self.entries().len() == 0),
    {
        self.entries.len() == 0
    }

    /// The position of `key` in the insertion order.
    pub fn position(&self, key: &str) -> (at: Option<usize>)
        ensures
            self.wf(),
            match at {
                Some(i) => has_key(self.entries(), key@) && i == index_of_key(self.entries(), key@),
                None => !has_key(self.entries(), key@),
            },
    {
        proof {
            use_type_invariant(self);
        }
        let wanted = String::from_str(key);
        let mut i: usize = 0;
        while i < self.entries.len()
            invariant
                self.wf(),
                i <= self.entries@.len(),
                wanted@ == key@,
                forall|j: int| 0 <= j < i ==> (#[trigger] self.entries()[j]).0 != key@,
            decreases self.entries@.len() - i,
        {
            if self.entries[i].0 == wanted {
                proof {
                    lemma_lookup_at(self.entries(), i as int);
                }
                return Some(i);
            }
            i += 1;
        }
        None
    }

    /// Whether the map holds an entry for `key`.
    pub fn contains_key(&self, key: &str) -> (found: bool)
        ensures
            found == has_key(self.entries(), key@),
    {
        self.position(key).is_some()
    }

    /// The value stored under `key`.
    pub fn get(&self, key: &str) -> (value: Option<&V>)
        ensures
            self.wf(),
            match value {
                Some(v) => lookup(self.entries(), key@) == Some(*v),
                None => lookup(self.entries(), key@) is None,
            },
    {
        match self.position(key) {
            Some(i) => Some(&self.entries[i].1),
            None => None,
        }
    }

    /// The key at position `i` of the insertion order.
    pub fn key_at(&self, i: usize) -> (key: &String)
        requires
            i < self.entries().len(),
        ensures
            self.wf(),
            key@ == self.entries()[i as int].0,
    {
        proof {
            use_type_invariant(self);
        }
        &self.entries[i].0
    }

    /// The value at position `i` of the insertion order.
    pub fn value_at(&self, i: usize) -> (value: &V)
        requires
            i < self.entries().len(),
        ensures
            self.wf(),
            *value == self.entries()[i as int].1,
    {
        proof {
            use_type_invariant(self);
        }
        &self.entries[i].1
    }

    /// Stores `value` under `key` and returns the value that was there.
    pub fn insert(&mut self, key: String, value: V) -> (previous: Option<V>)
        ensures
            final(self).wf(),
            final(self).entries() == with_entry(old(self).entries(), key@, value),
            previous == lookup(old(self).entries(), key@),
    {
        let found = self.position(key.as_str());
        let ghost before = self.entries();
        let mut entries = Vec::new();
        core::mem::swap(&mut self.entries, &mut entries);
        let previous = match found {
            Some(i) => {
                let (_, old_value) = entries.remove(i);
                entries.insert(i, (key, value));
                Some(old_value)
            },
            None => {
                entries.push((key, value));
                None
            },
        };
        proof {
            lemma_with_entry(before, key@, value);
            let after = Seq::new(entries@.len(), |i: int| (entries@[i].0@, entries@[i].1));
            assert(after =~= with_entry(before, key@, value));
        }
        self.entries = entries;
        previous
    }

    /// Removes the entry for `key` and returns its value.
    pub fn remove(&mut self, key: &str) -> (previous: Option<V>)
        ensures
            final(self).wf(),
            final(self).entries() == without_key(old(self).entries(), key@),
            previous == lookup(old(self).entries(), key@),
    {
        let found = self.position(key);
        let ghost before = self.entries();
        match found {
            Some(i) => {
                let mut entries = Vec::new();
                core::mem::swap(&mut self.entries, &mut entries);
                let (_, old_value) = entries.remove(i);
                proof {
                    lemma_without_key(before, key@);
                    let after = Seq::new(entries@.len(), |i: int| (entries@[i].0@, entries@[i].1));
                    assert(after =~= without_key(before, key@));
                }
                self.entries = entries;
                Some(old_value)
            },
            None => None,
        }
    }

    /// Stores every entry of `other`, in its order.
    pub fn extend(&mut self, other: StrMap<V>)
        ensures
            final(self).wf(),
            final(self).entries() == with_entries(old(self).entries(), other.entries()),
    {
        proof {
            use_type_invariant(&other);
            use_type_invariant(&*self);
        }
        let ghost start = self.entries();
        let ghost more = other.entries();
        let incoming = other.entries;
        let ghost raw = incoming@;
        for entry in it: incoming.into_iter()
            invariant
                it.seq() == raw,
                more.len() == raw.len(),
                forall|i: int| 0 <= i < raw.len() ==> (#[trigger] more[i]) == (raw[i].0@, raw[i].1),
                self.wf(),
                self.entries() == with_entries(start, more.take(it.index() as int)),
        {
            proof {
                assert(more.take(it.index() + 1).drop_last() =~= more.take(it.index() as int));
            }
            let (key, value) = entry;
            self.insert(key, value);
        }
        proof {
            assert(more.take(more.len() as int) =~= more);
        }
    }
}

impl<V: View> View for StrMap<V> {
    type V = Seq<(Seq<char>, V::V)>;

    /// The entries in insertion order, each value as its view.
    open spec fn view(&self) -> Seq<(Seq<char>, V::V)> {
        deep(self.entries())
    }
}

} // verus!
