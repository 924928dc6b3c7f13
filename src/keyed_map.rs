use vstd::hash_map::StringHashMap;
use vstd::prelude::*;

use crate::text::same_text;

verus! {

/// A map from text keys that also keeps its keys in a list, so that they
/// can be walked and sampled.
#[verifier::reject_recursive_types(V)]
pub struct KeyedMap<V> {
    map: StringHashMap<V>,
    keys: Vec<String>,
}

impl<V> KeyedMap<V> {
    /// The key list holds each key of the map once, and nothing else.
    pub closed spec fn wf(&self) -> bool {
        &&& forall|i: int| 0 <= i < self.keys@.len() ==> self.map@.contains_key(#[trigger] self.keys@[i]@)
        &&& forall|k: Seq<char>| self.map@.contains_key(k) ==> exists|i: int| 0 <= i < self.keys@.len() && #[trigger] self.keys@[i]@ == k
        &&& forall|i: int, j: int| 0 <= i < j < self.keys@.len() ==> #[trigger] self.keys@[i]@ != #[trigger] self.keys@[j]@
    }

    /// The entries of the map.
    pub closed spec fn view(&self) -> Map<Seq<char>, V> {
        self.map@
    }

    /// The keys, each once, in the order that `keys` gives them.
    pub closed spec fn key_list(&self) -> Seq<Seq<char>> {
        self.keys@.map_values(|k: String| k@)
    }

    /// What the key list says of the map: it lists each key once.
    pub open spec fn lists_keys(&self) -> bool {
        &&& forall|i: int| 0 <= i < self.key_list().len() ==> self@.contains_key(#[trigger] self.key_list()[i])
        &&& forall|k: Seq<char>| self@.contains_key(k) ==> exists|i: int| 0 <= i < self.key_list().len() && #[trigger] self.key_list()[i] == k
        &&& forall|i: int, j: int| 0 <= i < j < self.key_list().len() ==> #[trigger] self.key_list()[i] != #[trigger] self.key_list()[j]
        &&& self.key_list().len() == self@.len()
        &&& self@.dom().finite()
    }

    pub proof fn lemma_lists_keys(&self)
        requires
            self.wf(),
        ensures
            self.lists_keys(),
    {
        let ks = self.key_list();
        assert forall|k: Seq<char>| self@.contains_key(k) implies exists|i: int| 0 <= i < ks.len() && #[trigger] ks[i] == k by {
            let i = choose|i: int| 0 <= i < self.keys@.len() && #[trigger] self.keys@[i]@ == k;
            assert(ks[i] == k);
        }
        assert(self@.dom() =~= ks.to_set());
        ks.unique_seq_to_set();
    }

    pub fn new() -> (r: Self)
        ensures
            r@ == Map::<Seq<char>, V>::empty(),
            r.wf(),
    {
        KeyedMap { map: StringHashMap::new(), keys: Vec::new() }
    }

    pub fn len(&self) -> (r: usize)
        requires
            self.wf(),
        ensures
            r == self@.len(),
    {
        proof {
            self.lemma_lists_keys();
        }
        self.keys.len()
    }

    pub fn get(&self, k: &str) -> (r: Option<&V>)
        ensures
            match r {
                Some(v) => self@.contains_key(k@) && *v == self@[k@],
                None => !self@.contains_key(k@),
            },
    {
        self.map.get(k)
    }

    pub fn contains_key(&self, k: &str) -> (r: bool)
        ensures
            r == self@.contains_key(k@),
    {
        self.map.contains_key(k)
    }

    /// The keys, each once.
    pub fn keys(&self) -> (r: &Vec<String>)
        requires
            self.wf(),
        ensures
            r@.map_values(|k: String| k@) == self.key_list(),
            self.lists_keys(),
    {
        proof {
            self.lemma_lists_keys();
        }
        &self.keys
    }

    pub fn insert(&mut self, k: String, v: V)
        requires
            old(self).wf(),
        ensures
            final(self)@ == old(self)@.insert(k@, v),
            final(self).wf(),
    {
        if !self.map.contains_key(k.as_str()) {
            let copy = k.clone();
            self.keys.push(copy);
        }
        self.map.insert(k, v);
        proof {
            assert forall|j: int| 0 <= j < self.keys@.len() implies self.map@.contains_key(#[trigger] self.keys@[j]@) by {
                if j < old(self).keys@.len() {
                    assert(self.keys@[j] == old(self).keys@[j]);
                }
            }
            assert forall|key: Seq<char>| self.map@.contains_key(key) implies exists|i: int| 0 <= i < self.keys@.len() && #[trigger] self.keys@[i]@ == key by {
                if key != k@ {
                    let i = choose|i: int| 0 <= i < old(self).keys@.len() && #[trigger] old(self).keys@[i]@ == key;
                    assert(self.keys@[i] == old(self).keys@[i]);
                } else if old(self).map@.contains_key(k@) {
                    let i = choose|i: int| 0 <= i < old(self).keys@.len() && #[trigger] old(self).keys@[i]@ == key;
                    assert(self.keys@[i] == old(self).keys@[i]);
                } else {
                    assert(self.keys@[self.keys@.len() - 1]@ == key);
                }
            }
            assert forall|i: int, j: int| 0 <= i < j < self.keys@.len() implies #[trigger] self.keys@[i]@ != #[trigger] self.keys@[j]@ by {
                if j < old(self).keys@.len() {
                    assert(self.keys@[i] == old(self).keys@[i]);
                    assert(self.keys@[j] == old(self).keys@[j]);
                } else {
                    assert(self.keys@[i] == old(self).keys@[i]);
                    assert(old(self).map@.contains_key(old(self).keys@[i]@));
                }
            }
        }
    }

    /// Removes `k`; tells whether it was there.
    pub fn remove(&mut self, k: &str) -> (r: bool)
        requires
            old(self).wf(),
        ensures
            final(self)@ == old(self)@.remove(k@),
            r == old(self)@.contains_key(k@),
            final(self).wf(),
    {
        if !self.map.contains_key(k) {
            assert(self.map@.remove(k@) =~= self.map@);
            return false;
        }
        let mut i: usize = 0;
        while i < self.keys.len()
            invariant
                0 <= i <= self.keys@.len(),
                forall|j: int| 0 <= j < i ==> self.keys@[j]@ != k@,
            ensures
                0 <= i <= self.keys@.len(),
                forall|j: int| 0 <= j < i ==> self.keys@[j]@ != k@,
                i < self.keys@.len() ==> self.keys@[i as int]@ == k@,
            decreases self.keys@.len() - i,
        {
            if same_text(self.keys[i].as_str(), k) {
                break;
            }
            i = i + 1;
        }
        proof {
            if i == self.keys@.len() {
                let j = choose|j: int| 0 <= j < self.keys@.len() && #[trigger] self.keys@[j]@ == k@;
                assert(false);
            }
        }
        let ghost before = self.keys@;
        self.keys.remove(i);
        self.map.remove(k);
        proof {
            assert forall|j: int| 0 <= j < self.keys@.len() implies self.map@.contains_key(#[trigger] self.keys@[j]@) by {
                if j < i {
                    assert(self.keys@[j] == before[j]);
                } else {
                    assert(self.keys@[j] == before[j + 1]);
                }
            }
            assert forall|key: Seq<char>| self.map@.contains_key(key) implies exists|j: int| 0 <= j < self.keys@.len() && #[trigger] self.keys@[j]@ == key by {
                let j = choose|j: int| 0 <= j < before.len() && #[trigger] before[j]@ == key;
                if j < i {
                    assert(self.keys@[j] == before[j]);
                } else {
                    assert(j != i);
                    assert(self.keys@[j - 1] == before[j]);
                }
            }
            assert forall|a: int, b: int| 0 <= a < b < self.keys@.len() implies #[trigger] self.keys@[a]@ != #[trigger] self.keys@[b]@ by {
                let a2 = if a < i { a } else { a + 1 };
                let b2 = if b < i { b } else { b + 1 };
                assert(self.keys@[a] == before[a2]);
                assert(self.keys@[b] == before[b2]);
            }
        }
        true
    }
}

} // verus!
