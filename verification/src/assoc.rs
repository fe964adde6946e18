//! Maps that are kept as lists of entries, in the order in which the keys were
//! first inserted.
use crate::ident;
use crate::ident::Ident;
use vstd::prelude::*;

verus! {

/// A map from keys to values; keys are told apart by their views.
#[derive(Debug)]
pub struct Assoc<K: Ident, V> {
    entries: Vec<(K, V)>,
}

/// The keys of a list of entries.
pub open spec fn entry_keys<K: Ident, V>(entries: Seq<(K, V)>) -> Seq<K::V> {
    Seq::new(entries.len(), |i: int| entries[i].0@)
}

/// The map that a list of entries stands for: a later entry replaces an
/// earlier one with the same key.
pub open spec fn map_of<K: Ident, V>(entries: Seq<(K, V)>) -> Map<K::V, V>
    decreases entries.len(),
{
    if entries.len() == 0 {
        Map::empty()
    } else {
        map_of(entries.drop_last()).insert(entries.last().0@, entries.last().1)
    }
}

/// A key stands for the value of its last entry.
pub proof fn lemma_map_of<K: Ident, V>(entries: Seq<(K, V)>, key: K::V)
    ensures
        map_of(entries).dom().contains(key) <==> entry_keys(entries).contains(key),
        map_of(entries).dom().contains(key) ==> {
            let k = ident::last_position(entry_keys(entries), key);
            0 <= k < entries.len() && map_of(entries)[key] == entries[k].1
        },
    decreases entries.len(),
{
    let keys = entry_keys(entries);
    ident::lemma_last_position(keys, key);
    if entries.len() > 0 {
        let rest = entries.drop_last();
        assert(entry_keys(rest) =~= keys.drop_last());
        lemma_map_of(rest, key);
        ident::lemma_last_position(entry_keys(rest), key);
    }
}

/// With distinct keys, each entry tells what its key stands for.
pub proof fn lemma_distinct_entries<K: Ident, V>(entries: Seq<(K, V)>, i: int)
    requires
        entry_keys(entries).no_duplicates(),
        0 <= i < entries.len(),
    ensures
        map_of(entries).dom().contains(entries[i].0@),
        map_of(entries)[entries[i].0@] == entries[i].1,
{
    let keys = entry_keys(entries);
    assert(keys[i] == entries[i].0@);
    ident::lemma_last_position_is(keys, keys[i], i);
    lemma_map_of(entries, keys[i]);
}

/// Two lists with the same keys and, key by key, the same values stand for the
/// same map.
proof fn lemma_replaced_entry<K: Ident, V>(before: Seq<(K, V)>, after: Seq<(K, V)>, i: int)
    requires
        entry_keys(before).no_duplicates(),
        0 <= i < before.len(),
        after.len() == before.len(),
        after[i].0@ == before[i].0@,
        forall|j: int| 0 <= j < before.len() && j != i ==> after[j] == before[j],
    ensures
        entry_keys(after) == entry_keys(before),
        map_of(after) == map_of(before).insert(before[i].0@, after[i].1),
{
    assert(entry_keys(after) =~= entry_keys(before));
    let m = map_of(after);
    let n = map_of(before).insert(before[i].0@, after[i].1);
    assert forall|k: K::V| m.dom().contains(k) <==> n.dom().contains(k) by {
        lemma_map_of(after, k);
        lemma_map_of(before, k);
        lemma_distinct_entries(before, i);
    }
    assert forall|k: K::V| m.dom().contains(k) implies m[k] == n[k] by {
        lemma_map_of(after, k);
        lemma_map_of(before, k);
        let p = ident::last_position(entry_keys(before), k);
        ident::lemma_last_position(entry_keys(before), k);
        lemma_distinct_entries(after, i);
    }
    assert(m =~= n);
}

impl<K: Ident, V> View for Assoc<K, V> {
    type V = Map<K::V, V>;

    closed spec fn view(&self) -> Map<K::V, V> {
        map_of(self.entries@)
    }
}

impl<K: Ident, V> Assoc<K, V> {
    /// The entries, in order.
    pub closed spec fn list(&self) -> Seq<(K, V)> {
        self.entries@
    }

    /// No key has two entries.
    pub open spec fn wf(&self) -> bool {
        &&& entry_keys(self.list()).no_duplicates()
        &&& self@ == map_of(self.list())
    }

    /// A map without entries.
    pub fn new() -> (r: Self)
        ensures
            r.wf(),
            r.list().len() == 0,
            r@ == Map::<K::V, V>::empty(),
    {
        Assoc { entries: Vec::new() }
    }

    /// The number of entries.
    pub fn len(&self) -> (r: usize)
        ensures
            r == self.list().len(),
    {
        self.entries.len()
    }

    /// Where the entry with the given key stands.
    fn find(&self, key: &K) -> (r: Option<usize>)
        requires
            self.wf(),
        ensures
            r is Some <==> self@.dom().contains(key@),
            r matches Some(i) ==> i < self.list().len() && self.list()[i as int].0@ == key@
                && self@[key@] == self.list()[i as int].1,
    {
        let mut i: usize = 0;
        while i < self.entries.len()
            invariant
                i <= self.entries@.len(),
                self.wf(),
                forall|k: int| 0 <= k < i ==> (#[trigger] self.entries@[k]).0@ != key@,
            decreases self.entries@.len() - i,
        {
            if self.entries[i].0.same(key) {
                proof {
                    lemma_distinct_entries(self.entries@, i as int);
                }
                return Some(i);
            }
            i += 1;
        }
        proof {
            lemma_map_of(self.entries@, key@);
            let keys = entry_keys(self.entries@);
            if keys.contains(key@) {
                let k = keys.index_of(key@);
                assert(self.entries@[k].0@ == key@);
            }
        }
        None
    }

    /// The value that a key stands for.
    pub fn get(&self, key: &K) -> (r: Option<&V>)
        requires
            self.wf(),
        ensures
            r is Some <==> self@.dom().contains(key@),
            r matches Some(v) ==> *v == self@[key@],
    {
        match self.find(key) {
            Some(i) => Some(&self.entries[i].1),
            None => None,
        }
    }

    /// Whether there is an entry with the given key.
    pub fn contains_key(&self, key: &K) -> (r: bool)
        requires
            self.wf(),
        ensures
            r == self@.dom().contains(key@),
    {
        self.find(key).is_some()
    }

    /// The key of the entry at the given place.
    pub fn key_at(&self, i: usize) -> (r: &K)
        requires
            i < self.list().len(),
        ensures
            *r == self.list()[i as int].0,
    {
        &self.entries[i].0
    }

    /// The value of the entry at the given place.
    pub fn value_at(&self, i: usize) -> (r: &V)
        requires
            i < self.list().len(),
        ensures
            *r == self.list()[i as int].1,
    {
        &self.entries[i].1
    }

    /// Puts another value in the place of one that is there, and gives that
    /// one back.
    pub fn replace(&mut self, key: &K, value: V) -> (r: V)
        requires
            old(self).wf(),
            old(self)@.dom().contains(key@),
        ensures
            final(self).wf(),
            entry_keys(final(self).list()) == entry_keys(old(self).list()),
            r == old(self)@[key@],
            final(self)@ == old(self)@.insert(key@, value),
    {
        let i: usize = match self.find(key) {
            Some(i) => i,
            None => {
                assert(false);
                0
            },
        };
        let ghost before = self.entries@;
        let (k, old_value) = self.entries.remove(i);
        self.entries.insert(i, (k, value));
        proof {
            lemma_replaced_entry(before, self.entries@, i as int);
        }
        old_value
    }

    /// Takes the last entry out.
    pub fn pop(&mut self) -> (r: Option<(K, V)>)
        requires
            old(self).wf(),
        ensures
            final(self).wf(),
            r is None <==> old(self).list().len() == 0,
            r is None ==> final(self).list() == old(self).list() && final(self)@ == old(self)@,
            r matches Some(entry) ==> {
                &&& entry == old(self).list().last()
                &&& final(self).list() == old(self).list().drop_last()
                &&& old(self)@.dom().contains(entry.0@)
                &&& old(self)@[entry.0@] == entry.1
                &&& final(self)@ == old(self)@.remove(entry.0@)
            },
    {
        let ghost before = self.entries@;
        let popped = self.entries.pop();
        proof {
            if before.len() > 0 {
                let after = self.entries@;
                let last: int = before.len() - 1;
                lemma_distinct_entries(before, last);
                assert(entry_keys(after) =~= entry_keys(before).drop_last());
                lemma_map_of(after, before.last().0@);
                if entry_keys(after).contains(before.last().0@) {
                    let k = entry_keys(after).index_of(before.last().0@);
                    assert(entry_keys(before)[k] == entry_keys(before)[last]);
                }
                assert(map_of(after) =~= map_of(before).remove(before.last().0@));
            }
        }
        popped
    }

    /// Lets a key stand for a value, in place of any that it stood for.
    pub fn insert(&mut self, key: K, value: V)
        requires
            old(self).wf(),
        ensures
            final(self).wf(),
            final(self)@ == old(self)@.insert(key@, value),
            old(self)@.dom().contains(key@) ==> entry_keys(final(self).list()) == entry_keys(
                old(self).list(),
            ),
            !old(self)@.dom().contains(key@) ==> final(self).list() == old(self).list().push(
                (key, value),
            ),
    {
        if self.contains_key(&key) {
            let _ = self.replace(&key, value);
        } else {
            let ghost before = self.entries@;
            proof {
                lemma_map_of(before, key@);
            }
            self.entries.push((key, value));
            proof {
                let after = self.entries@;
                assert(after.drop_last() =~= before);
                assert(entry_keys(after) =~= entry_keys(before).push(key@));
                assert(entry_keys(after).no_duplicates()) by {
                    assert forall|i: int, j: int|
                        0 <= i < after.len() && 0 <= j < after.len() && i != j implies entry_keys(
                        after,
                    )[i] != entry_keys(after)[j] by {
                        let keys = entry_keys(before);
                        if i == before.len() {
                            assert(keys[j] == entry_keys(after)[j]);
                            assert(keys.contains(keys[j]));
                        } else if j == before.len() {
                            assert(keys[i] == entry_keys(after)[i]);
                            assert(keys.contains(keys[i]));
                        } else {
                            assert(keys[i] == entry_keys(after)[i] && keys[j] == entry_keys(
                                after,
                            )[j]);
                        }
                    }
                }
            }
        }
    }
}

} // verus!
