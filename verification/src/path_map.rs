//! A map keyed by path text that remembers the order in which keys arrived.

use crate::text::views;
use vstd::hash_map::StringHashMap;
use vstd::prelude::*;

verus! {

/// A finite map from text keys to values in which the first value written
/// for a key stays, and whose keys can be listed in order of arrival.
#[verifier::reject_recursive_types(V)]
pub struct PathMap<V> {
    entries: StringHashMap<V>,
    keys: Vec<String>,
}

impl<V> View for PathMap<V> {
    type V = Map<Seq<char>, V>;

    closed spec fn view(&self) -> Map<Seq<char>, V> {
        self.entries@
    }
}

impl<V> PathMap<V> {
    /// The keys in order of arrival.
    pub closed spec fn key_order(&self) -> Seq<Seq<char>> {
        views(self.keys@)
    }

    /// The key list names each key of the map exactly once.
    pub closed spec fn wf(&self) -> bool {
        &&& self.key_order().no_duplicates()
        &&& forall|k: Seq<char>| self@.contains_key(k) <==> self.key_order().contains(k)
    }

    /// What well-formedness says about the key list, and that the map is finite.
    pub proof fn lemma_keys(&self)
        requires
            self.wf(),
        ensures
            self.key_order().no_duplicates(),
            forall|k: Seq<char>| self@.contains_key(k) <==> self.key_order().contains(k),
            self@.dom() == self.key_order().to_set(),
            self@.dom().finite(),
            self@.dom().len() == self.key_order().len(),
    {
        assert(self@.dom() =~= self.key_order().to_set());
        self.key_order().unique_seq_to_set();
    }

    /// An empty map.
    pub fn new() -> (map: Self)
        ensures
            map.wf(),
            map@ == Map::<Seq<char>, V>::empty(),
            map.key_order() == Seq::<Seq<char>>::empty(),
    {
        let map = PathMap { entries: StringHashMap::new(), keys: Vec::new() };
        assert(map.key_order() =~= Seq::<Seq<char>>::empty());
        map
    }

    /// Number of keys.
    pub fn len(&self) -> (n: usize)
        requires
            self.wf(),
        ensures
            n == self.key_order().len(),
            n == self@.dom().len(),
    {
        proof {
            self.lemma_keys();
        }
        self.keys.len()
    }

    /// Whether `key` is present.
    pub fn contains_key(&self, key: &str) -> (present: bool)
        ensures
            present == self@.contains_key(key@),
    {
        self.entries.contains_key(key)
    }

    /// The value stored for `key`, if any.
    pub fn get(&self, key: &str) -> (value: Option<&V>)
        ensures
            match value {
                Some(v) => self@.contains_key(key@) && *v == self@[key@],
                None => !self@.contains_key(key@),
            },
    {
        self.entries.get(key)
    }

    /// Stores `value` for `key` unless the key is already present: the first
    /// write wins. Returns whether the value was stored.
    pub fn insert(&mut self, key: String, value: V) -> (stored: bool)
        requires
            old(self).wf(),
        ensures
            final(self).wf(),
            stored == !old(self)@.contains_key(key@),
            stored ==> final(self)@ == old(self)@.insert(key@, value) && final(self).key_order()
                == old(self).key_order().push(key@),
            !stored ==> final(self)@ == old(self)@ && final(self).key_order() == old(
                self,
            ).key_order(),
    {
        if self.entries.contains_key(key.as_str()) {
            return false;
        }
        let ghost before = self.key_order();
        self.keys.push(key.clone());
        self.entries.insert(key, value);
        proof {
            assert(self.key_order() =~= before.push(key@));
            assert(!before.contains(key@));
            assert forall|i: int, j: int|
                0 <= i < self.key_order().len() && 0 <= j < self.key_order().len() && i
                    != j implies self.key_order()[i] != self.key_order()[j] by {
                if i < before.len() {
                    assert(before.contains(before[i]));
                }
                if j < before.len() {
                    assert(before.contains(before[j]));
                }
            }
            assert forall|k: Seq<char>| self@.contains_key(k) <==> self.key_order().contains(
                k,
            ) by {
                if k == key@ {
                    assert(self.key_order()[before.len() as int] == k);
                } else {
                    if before.contains(k) {
                        let i = choose|i: int| 0 <= i < before.len() && before[i] == k;
                        assert(self.key_order()[i] == k);
                    }
                }
            }
        }
        true
    }

    /// The keys in order of arrival.
    pub fn keys(&self) -> (keys: &Vec<String>)
        ensures
            views(keys@) == self.key_order(),
    {
        &self.keys
    }
}

} // verus!
