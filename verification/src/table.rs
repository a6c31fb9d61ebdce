//! A map from texts to values kept in the byte order of its keys, as a `BTreeMap<String, _>` walks.
use crate::text::{
    before, bytes_of, lemma_bytes_injective, lemma_precedes_irreflexive, lemma_precedes_total,
    lemma_precedes_transitive, same, text_precedes,
};
use vstd::prelude::*;

verus! {

/// Entries whose keys strictly increase by their UTF-8 bytes.
pub open spec fn ascending<V>(entries: Seq<(String, V)>) -> bool {
    forall|i: int, j: int|
        0 <= i < j < entries.len() ==> text_precedes(
            #[trigger] entries[i].0@,
            #[trigger] entries[j].0@,
        )
}

/// The keys of a sequence of entries, in order.
pub open spec fn keys_of<V>(entries: Seq<(String, V)>) -> Seq<Seq<char>> {
    entries.map_values(|e: (String, V)| e.0@)
}

/// Whether some entry has key `k`.
pub open spec fn holds_key<V>(entries: Seq<(String, V)>, k: Seq<char>) -> bool {
    exists|i: int| 0 <= i < entries.len() && entries[i].0@ == k
}

/// An entry whose key is `k`, where one is.
pub open spec fn pick<V>(entries: Seq<(String, V)>, k: Seq<char>) -> int {
    choose|i: int| 0 <= i < entries.len() && entries[i].0@ == k
}

/// The map that a sequence of entries with distinct keys describes.
pub open spec fn map_of<V>(entries: Seq<(String, V)>) -> Map<Seq<char>, V> {
    Map::new(|k: Seq<char>| holds_key(entries, k), |k: Seq<char>| entries[pick(entries, k)].1)
}

pub proof fn lemma_ascending_distinct<V>(entries: Seq<(String, V)>, i: int, j: int)
    requires
        ascending(entries),
        0 <= i < entries.len(),
        0 <= j < entries.len(),
        i != j,
    ensures
        entries[i].0@ != entries[j].0@,
{
    if i < j {
        assert(text_precedes(entries[i].0@, entries[j].0@));
        lemma_precedes_irreflexive(bytes_of(entries[i].0@));
    } else {
        assert(text_precedes(entries[j].0@, entries[i].0@));
        lemma_precedes_irreflexive(bytes_of(entries[j].0@));
    }
}

/// In ascending entries, the map gives back the value stored beside each key.
pub proof fn lemma_map_at<V>(entries: Seq<(String, V)>, i: int)
    requires
        ascending(entries),
        0 <= i < entries.len(),
    ensures
        map_of(entries).contains_key(entries[i].0@),
        map_of(entries)[entries[i].0@] == entries[i].1,
{
    let k = entries[i].0@;
    assert(exists|j: int| 0 <= j < entries.len() && entries[j].0@ == k);
    let j = pick(entries, k);
    if j != i {
        lemma_ascending_distinct(entries, i, j);
    }
    assert(map_of(entries).contains_key(k));
    assert(map_of(entries)[k] == entries[pick(entries, k)].1);
}

/// Keys in strictly increasing byte order that are exactly the members of `dom`.
pub open spec fn in_key_order(keys: Seq<Seq<char>>, dom: Set<Seq<char>>) -> bool {
    &&& forall|i: int, j: int| 0 <= i < j < keys.len() ==> text_precedes(#[trigger] keys[i], #[trigger] keys[j])
    &&& forall|i: int| 0 <= i < keys.len() ==> dom.contains(#[trigger] keys[i])
    &&& forall|k: Seq<char>| #[trigger] dom.contains(k) ==> exists|i: int| 0 <= i < keys.len() && keys[i] == k
}

/// Ascending entries list the keys of their map once each, in byte order, each beside its value.
pub proof fn lemma_ordered<V>(entries: Seq<(String, V)>)
    requires
        ascending(entries),
    ensures
        in_key_order(keys_of(entries), map_of(entries).dom()),
        forall|i: int|
            0 <= i < entries.len() ==> map_of(entries).contains_key((#[trigger] entries[i]).0@)
                && map_of(entries)[entries[i].0@] == entries[i].1,
{
    let keys = keys_of(entries);
    assert forall|a: int, b: int| 0 <= a < b < keys.len() implies text_precedes(
        #[trigger] keys[a],
        #[trigger] keys[b],
    ) by {
        assert(keys[a] == entries[a].0@ && keys[b] == entries[b].0@);
    }
    assert forall|j: int| 0 <= j < keys.len() implies map_of(entries).dom().contains(
        #[trigger] keys[j],
    ) by {
        lemma_map_at(entries, j);
    }
    assert forall|k: Seq<char>| #[trigger] map_of(entries).dom().contains(k) implies exists|j: int|
        0 <= j < keys.len() && keys[j] == k by {
        let j = pick(entries, k);
        assert(keys[j] == k);
    }
    assert forall|i: int| 0 <= i < entries.len() implies map_of(entries).contains_key(
        (#[trigger] entries[i]).0@,
    ) && map_of(entries)[entries[i].0@] == entries[i].1 by {
        lemma_map_at(entries, i);
    }
}

/// `after` is `before` with `entry` stored at position `at`: in place of the entry with the same
/// key, or inserted there where no entry had that key.
pub open spec fn placed<V>(before: Seq<(String, V)>, after: Seq<(String, V)>, entry: (String, V), at: int) -> bool {
    ||| (0 <= at < before.len() && before[at].0@ == entry.0@ && after == before.update(at, entry))
    ||| (0 <= at <= before.len() && !map_of(before).contains_key(entry.0@) && after == before.insert(
        at,
        entry,
    ))
}

/// A map from texts to values, walked in the byte order of its keys.
#[derive(Debug)]
pub struct Table<V> {
    entries: Vec<(String, V)>,
}

impl<V> Table<V> {
    /// The entries in key order.
    pub closed spec fn entries(&self) -> Seq<(String, V)> {
        self.entries@
    }

    /// The keys in order.
    pub open spec fn keys(&self) -> Seq<Seq<char>> {
        keys_of(self.entries())
    }

    /// The map that the table holds.
    pub open spec fn view(&self) -> Map<Seq<char>, V> {
        map_of(self.entries())
    }

    /// The entries ascend by key.
    pub open spec fn wf(&self) -> bool {
        ascending(self.entries())
    }

    /// A table without entries holds no key, and one with entries holds some.
    pub proof fn lemma_empty(&self)
        ensures
            self.entries().len() == 0 <==> self@.dom() == Set::<Seq<char>>::empty(),
    {
        if self.entries().len() == 0 {
            assert(self@.dom() =~= Set::<Seq<char>>::empty());
        } else {
            assert(holds_key(self.entries(), self.entries()[0].0@));
            assert(self@.dom().contains(self.entries()[0].0@));
        }
    }

    /// An empty table.
    pub fn new() -> (r: Self)
        ensures
            r.wf(),
            r.entries() == Seq::<(String, V)>::empty(),
            r@ == Map::<Seq<char>, V>::empty(),
    {
        let r = Table { entries: Vec::new() };
        assert(r@ =~= Map::<Seq<char>, V>::empty());
        r
    }

    /// The number of entries.
    pub fn len(&self) -> (r: usize)
        ensures
            r == self.entries().len(),
    {
        self.entries.len()
    }

    /// The key of the entry at `index`.
    pub fn key_at(&self, index: usize) -> (r: &String)
        requires
            index < self.entries().len(),
        ensures
            *r == self.entries()[index as int].0,
    {
        &self.entries[index].0
    }

    /// The value of the entry at `index`.
    pub fn value_at(&self, index: usize) -> (r: &V)
        requires
            index < self.entries().len(),
        ensures
            *r == self.entries()[index as int].1,
    {
        &self.entries[index].1
    }

    /// Where `key` stands, if it stands.
    pub fn find(&self, key: &str) -> (r: Option<usize>)
        requires
            self.wf(),
        ensures
            r matches Some(i) ==> i < self.entries().len() && self.entries()[i as int].0@ == key@,
            r is None ==> !self@.contains_key(key@),
            r is Some <==> self@.contains_key(key@),
    {
        let mut i: usize = 0;
        while i < self.entries.len()
            invariant
                self.wf(),
                i <= self.entries@.len(),
                forall|j: int| 0 <= j < i ==> self.entries@[j].0@ != key@,
            decreases self.entries@.len() - i,
        {
            if same(self.entries[i].0.as_str(), key) {
                proof {
                    lemma_map_at(self.entries@, i as int);
                }
                return Some(i);
            }
            i = i + 1;
        }
        None
    }

    /// The value stored under `key`.
    pub fn get(&self, key: &str) -> (r: Option<&V>)
        requires
            self.wf(),
        ensures
            r matches Some(v) ==> self@.contains_key(key@) && *v == self@[key@],
            r is None ==> !self@.contains_key(key@),
    {
        match self.find(key) {
            Some(i) => {
                proof {
                    lemma_map_at(self.entries@, i as int);
                }
                Some(&self.entries[i].1)
            },
            None => None,
        }
    }

    /// Where an entry for `key` stands or would stand: the first entry whose key does not
    /// sort before `key`.
    fn slot(&self, key: &str) -> (r: usize)
        requires
            self.wf(),
        ensures
            r <= self.entries().len(),
            forall|j: int| 0 <= j < r ==> text_precedes(#[trigger] self.entries()[j].0@, key@),
            r < self.entries().len() ==> !text_precedes(self.entries()[r as int].0@, key@),
    {
        let mut i: usize = 0;
        while i < self.entries.len()
            invariant
                i <= self.entries@.len(),
                forall|j: int| 0 <= j < i ==> text_precedes(#[trigger] self.entries@[j].0@, key@),
            decreases self.entries@.len() - i,
        {
            if !before(self.entries[i].0.as_str(), key) {
                return i;
            }
            i = i + 1;
        }
        i
    }

    /// Stores `value` under `key`, replacing what stood there.
    pub fn put(&mut self, key: String, value: V)
        requires
            old(self).wf(),
        ensures
            final(self).wf(),
            final(self)@ == old(self)@.insert(key@, value),
            exists|at: int| placed(old(self).entries(), final(self).entries(), (key, value), at),
    {
        let ghost before_entries = self.entries@;
        let ghost entry = (key, value);
        let at = self.slot(key.as_str());
        let ghost k = key@;
        if at < self.entries.len() && same(self.entries[at].0.as_str(), key.as_str()) {
            let mut item = (key, value);
            self.entries.set_and_swap(at, &mut item);
            proof {
                let e = self.entries@;
                assert(e =~= before_entries.update(at as int, (e[at as int].0, value)));
                assert forall|i: int, j: int| 0 <= i < j < e.len() implies text_precedes(
                    #[trigger] e[i].0@,
                    #[trigger] e[j].0@,
                ) by {
                    assert(before_entries[i].0@ == e[i].0@);
                    assert(before_entries[j].0@ == e[j].0@);
                }
                assert(ascending(e));
                assert(e =~= before_entries.update(at as int, entry));
                assert(placed(before_entries, e, entry, at as int));
                assert(map_of(e) =~= map_of(before_entries).insert(k, value)) by {
                    assert forall|q: Seq<char>| #[trigger]
                        map_of(e).contains_key(q) == map_of(before_entries).insert(
                            k,
                            value,
                        ).contains_key(q) by {
                        if map_of(e).contains_key(q) {
                            let j = pick(e, q);
                            assert(before_entries[j].0@ == q);
                        }
                        if map_of(before_entries).contains_key(q) {
                            let j = pick(before_entries, q);
                            assert(e[j].0@ == q);
                        }
                    }
                    assert forall|q: Seq<char>| #[trigger] map_of(e).contains_key(q) implies map_of(
                        e,
                    )[q] == map_of(before_entries).insert(k, value)[q] by {
                        let j = pick(e, q);
                        lemma_map_at(e, j);
                        if q != k {
                            assert(j != at);
                            lemma_map_at(before_entries, j);
                        }
                    }
                }
            }
        } else {
            self.entries.insert(at, (key, value));
            proof {
                let e = self.entries@;
                assert(e =~= before_entries.insert(at as int, (e[at as int].0, value)));
                if at < before_entries.len() {
                    lemma_precedes_total(bytes_of(before_entries[at as int].0@), bytes_of(k));
                    if bytes_of(before_entries[at as int].0@) == bytes_of(k) {
                        lemma_bytes_injective(before_entries[at as int].0@, k);
                    }
                }
                assert forall|m: int| at < m < before_entries.len() implies text_precedes(
                    k,
                    #[trigger] before_entries[m].0@,
                ) by {
                    assert(text_precedes(before_entries[at as int].0@, before_entries[m].0@));
                    lemma_precedes_transitive(
                        bytes_of(k),
                        bytes_of(before_entries[at as int].0@),
                        bytes_of(before_entries[m].0@),
                    );
                }
                assert forall|i: int, j: int| 0 <= i < j < e.len() implies text_precedes(
                    #[trigger] e[i].0@,
                    #[trigger] e[j].0@,
                ) by {
                    if j < at {
                        assert(e[i] == before_entries[i] && e[j] == before_entries[j]);
                    } else if j == at {
                        assert(e[i] == before_entries[i]);
                    } else if i == at {
                        assert(e[j] == before_entries[j - 1]);
                        if j - 1 > at {
                            assert(text_precedes(before_entries[at as int].0@, before_entries[j - 1].0@));
                            lemma_precedes_transitive(
                                bytes_of(k),
                                bytes_of(before_entries[at as int].0@),
                                bytes_of(before_entries[j - 1].0@),
                            );
                        }
                    } else if i < at {
                        assert(e[i] == before_entries[i]);
                        assert(e[j] == before_entries[j - 1]);
                        assert(text_precedes(before_entries[i].0@, k));
                        assert(text_precedes(k, before_entries[j - 1].0@));
                        lemma_precedes_transitive(
                            bytes_of(before_entries[i].0@),
                            bytes_of(k),
                            bytes_of(before_entries[j - 1].0@),
                        );
                    } else {
                        assert(e[i] == before_entries[i - 1]);
                        assert(e[j] == before_entries[j - 1]);
                    }
                }
                assert(ascending(e));
                assert(e =~= before_entries.insert(at as int, entry));
                assert(!map_of(before_entries).contains_key(k)) by {
                    if map_of(before_entries).contains_key(k) {
                        let j = pick(before_entries, k);
                        if j < at {
                            lemma_ascending_distinct(e, j, at as int);
                        } else {
                            lemma_ascending_distinct(e, j + 1, at as int);
                        }
                    }
                }
                assert(placed(before_entries, e, entry, at as int));
                assert(map_of(e) =~= map_of(before_entries).insert(k, value)) by {
                    assert forall|q: Seq<char>| #[trigger]
                        map_of(e).contains_key(q) == map_of(before_entries).insert(
                            k,
                            value,
                        ).contains_key(q) by {
                        if map_of(e).contains_key(q) {
                            let j = pick(e, q);
                            if j < at {
                                assert(before_entries[j].0@ == q);
                            } else if j > at {
                                assert(before_entries[j - 1].0@ == q);
                            }
                        }
                        if map_of(before_entries).contains_key(q) {
                            let j = pick(before_entries, q);
                            if j < at {
                                assert(e[j].0@ == q);
                            } else {
                                assert(e[j + 1].0@ == q);
                            }
                        }
                        if q == k {
                            assert(e[at as int].0@ == q);
                        }
                    }
                    assert forall|q: Seq<char>| #[trigger] map_of(e).contains_key(q) implies map_of(
                        e,
                    )[q] == map_of(before_entries).insert(k, value)[q] by {
                        let j = pick(e, q);
                        lemma_map_at(e, j);
                        if j < at {
                            lemma_map_at(before_entries, j);
                            if q == k {
                                lemma_ascending_distinct(e, j, at as int);
                            }
                        } else if j > at {
                            lemma_map_at(before_entries, j - 1);
                            if q == k {
                                lemma_ascending_distinct(e, j, at as int);
                            }
                        }
                    }
                }
            }
        }
    }

    /// Takes the entry for `key` out of the table.
    pub fn take(&mut self, key: &str) -> (r: Option<V>)
        requires
            old(self).wf(),
        ensures
            final(self).wf(),
            r matches Some(v) ==> old(self)@.contains_key(key@) && v == old(self)@[key@],
            r is None ==> !old(self)@.contains_key(key@),
            final(self)@ == old(self)@.remove(key@),
    {
        let ghost before_entries = self.entries@;
        match self.find(key) {
            None => {
                assert(self@ =~= self@.remove(key@));
                None
            },
            Some(at) => {
                proof {
                    lemma_map_at(before_entries, at as int);
                }
                let (_, v) = self.entries.remove(at);
                proof {
                    let e = self.entries@;
                    assert(e =~= before_entries.remove(at as int));
                    assert forall|i: int, j: int| 0 <= i < j < e.len() implies text_precedes(
                        #[trigger] e[i].0@,
                        #[trigger] e[j].0@,
                    ) by {
                        let bi = if i < at { i } else { i + 1 };
                        let bj = if j < at { j } else { j + 1 };
                        assert(e[i] == before_entries[bi]);
                        assert(e[j] == before_entries[bj]);
                    }
                    assert(map_of(e) =~= map_of(before_entries).remove(key@)) by {
                        assert forall|q: Seq<char>| #[trigger]
                            map_of(e).contains_key(q) == map_of(before_entries).remove(
                                key@,
                            ).contains_key(q) by {
                            if map_of(e).contains_key(q) {
                                let j = pick(e, q);
                                let bj = if j < at { j } else { j + 1 };
                                assert(before_entries[bj].0@ == q);
                                lemma_ascending_distinct(before_entries, bj, at as int);
                            }
                            if map_of(before_entries).contains_key(q) && q != key@ {
                                let j = pick(before_entries, q);
                                assert(j != at);
                                if j < at {
                                    assert(e[j].0@ == q);
                                } else {
                                    assert(e[j - 1].0@ == q);
                                }
                            }
                        }
                        assert forall|q: Seq<char>| #[trigger] map_of(e).contains_key(q) implies map_of(
                            e,
                        )[q] == map_of(before_entries).remove(key@)[q] by {
                            let j = pick(e, q);
                            lemma_map_at(e, j);
                            let bj = if j < at { j } else { j + 1 };
                            lemma_map_at(before_entries, bj);
                        }
                    }
                }
                Some(v)
            },
        }
    }
}

impl Table<String> {
    /// A copy of the table.
    pub fn duplicate(&self) -> (r: Self)
        ensures
            r.entries() == self.entries(),
            r@ == self@,
    {
        let mut entries: Vec<(String, String)> = Vec::new();
        let mut i: usize = 0;
        while i < self.entries.len()
            invariant
                i <= self.entries@.len(),
                entries@ == self.entries@.subrange(0, i as int),
            decreases self.entries@.len() - i,
        {
            let k = self.entries[i].0.clone();
            let v = self.entries[i].1.clone();
            entries.push((k, v));
            proof {
                assert(entries@ =~= self.entries@.subrange(0, i + 1));
            }
            i = i + 1;
        }
        proof {
            assert(entries@ =~= self.entries@);
        }
        Table { entries }
    }
}

} // verus!
