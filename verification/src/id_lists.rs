use std::collections::HashMap;
use vstd::prelude::*;

verus! {

broadcast use vstd::std_specs::hash::group_hash_axioms;

/// A table that maps identifiers (node or element numbers) to lists of
/// identifiers: a `HashMap` from each key to its list, with the keys also
/// kept in the order in which they first appeared.
pub struct IdLists {
    keys: Vec<u32>,
    lists: HashMap<u32, Vec<u32>>,
}

impl IdLists {
    /// Internal consistency: the ordered keys are distinct and are exactly
    /// the keys of the map.
    pub closed spec fn wf(&self) -> bool {
        &&& self.keys@.no_duplicates()
        &&& forall|k: u32| #[trigger] self.lists@.contains_key(k) <==> self.keys@.contains(k)
    }

    /// The keys, in order of first insertion.
    pub closed spec fn key_seq(&self) -> Seq<u32> {
        self.keys@
    }

    /// The list stored at a given position.
    pub closed spec fn list_at(&self, i: int) -> Seq<u32> {
        self.lists@[self.keys@[i]]@
    }

    /// The table as a map from keys to lists.
    pub closed spec fn as_map(&self) -> Map<u32, Seq<u32>> {
        Map::new(|k: u32| self.lists@.contains_key(k), |k: u32| self.lists@[k]@)
    }

    /// Relates the positional and the map view of a well-formed table.
    pub proof fn lemma_positions(&self)
        requires
            self.wf(),
        ensures
            self.key_seq().no_duplicates(),
            forall|i: int|
                #![trigger self.key_seq()[i]]
                0 <= i < self.key_seq().len() ==> self.as_map().contains_key(self.key_seq()[i])
                    && self.as_map()[self.key_seq()[i]] == self.list_at(i),
            forall|k: u32| #[trigger]
                self.as_map().contains_key(k) <==> self.key_seq().contains(k),
    {
        assert forall|i: int|
            #![trigger self.key_seq()[i]]
            0 <= i < self.key_seq().len() implies self.as_map().contains_key(self.key_seq()[i])
            && self.as_map()[self.key_seq()[i]] == self.list_at(i) by {
            assert(self.keys@.contains(self.keys@[i]));
        }
    }

    pub fn new() -> (t: Self)
        ensures
            t.wf(),
            t.key_seq() == Seq::<u32>::empty(),
            t.as_map() == Map::<u32, Seq<u32>>::empty(),
    {
        let t = IdLists { keys: Vec::new(), lists: HashMap::new() };
        assert(t.as_map() =~= Map::<u32, Seq<u32>>::empty());
        t
    }

    /// Number of keys.
    pub fn len(&self) -> (n: usize)
        requires
            self.wf(),
        ensures
            n == self.key_seq().len(),
    {
        self.keys.len()
    }

    /// The key at position `i`.
    pub fn key(&self, i: usize) -> (k: u32)
        requires
            self.wf(),
            i < self.key_seq().len(),
        ensures
            k == self.key_seq()[i as int],
    {
        self.keys[i]
    }

    /// The list at position `i`.
    pub fn list(&self, i: usize) -> (l: &Vec<u32>)
        requires
            self.wf(),
            i < self.key_seq().len(),
        ensures
            l@ == self.list_at(i as int),
    {
        assert(self.keys@.contains(self.keys@[i as int]));
        self.lists.get(&self.keys[i]).unwrap()
    }

    /// The list of a key, if present.
    pub fn get(&self, k: u32) -> (r: Option<&Vec<u32>>)
        requires
            self.wf(),
        ensures
            r is Some <==> self.as_map().contains_key(k),
            r matches Some(l) ==> l@ == self.as_map()[k],
    {
        self.lists.get(&k)
    }

    /// Appends `v` to the list of `k`, creating the key with an empty list
    /// first if it is absent.
    pub fn append(&mut self, k: u32, v: u32)
        requires
            old(self).wf(),
        ensures
            final(self).wf(),
            final(self).as_map() == old(self).as_map().insert(
                k,
                if old(self).as_map().contains_key(k) {
                    old(self).as_map()[k]
                } else {
                    Seq::<u32>::empty()
                }.push(v),
            ),
            final(self).key_seq() == if old(self).key_seq().contains(k) {
                old(self).key_seq()
            } else {
                old(self).key_seq().push(k)
            },
    {
        let ghost old_map = self.as_map();
        match self.lists.remove(&k) {
            Some(mut l) => {
                l.push(v);
                self.lists.insert(k, l);
                assert(self.as_map() =~= old_map.insert(k, old_map[k].push(v)));
            },
            None => {
                let mut l = Vec::new();
                l.push(v);
                self.lists.insert(k, l);
                let ghost old_keys = self.keys@;
                self.keys.push(k);
                assert(self.keys@.no_duplicates()) by {
                    assert forall|a: int, b: int|
                        0 <= a < b < self.keys@.len() implies self.keys@[a] != self.keys@[b] by {
                        if b == old_keys.len() {
                            assert(old_keys.contains(self.keys@[a]));
                        }
                    }
                }
                assert forall|kk: u32| #[trigger]
                    self.lists@.contains_key(kk) <==> self.keys@.contains(kk) by {
                    if old_keys.contains(kk) {
                        let j = choose|j: int| 0 <= j < old_keys.len() && old_keys[j] == kk;
                        assert(self.keys@[j] == kk);
                    }
                    if self.keys@.contains(kk) && kk != k {
                        let j = choose|j: int| 0 <= j < self.keys@.len() && self.keys@[j] == kk;
                        assert(old_keys[j] == kk);
                    }
                    assert(self.keys@[old_keys.len() as int] == k);
                }
                assert(self.as_map() =~= old_map.insert(k, Seq::<u32>::empty().push(v)));
            },
        }
    }

    /// Removes every key.
    pub fn clear(&mut self)
        ensures
            final(self).wf(),
            final(self).key_seq() == Seq::<u32>::empty(),
            final(self).as_map() == Map::<u32, Seq<u32>>::empty(),
    {
        self.keys.clear();
        self.lists.clear();
        assert(self.as_map() =~= Map::<u32, Seq<u32>>::empty());
    }
}

} // verus!

verus! {

/// Whether `v` holds `x`.
pub fn contains_id(v: &Vec<u32>, x: u32) -> (r: bool)
    ensures
        r == v@.contains(x),
{
    let mut i: usize = 0;
    while i < v.len()
        invariant
            i <= v.len(),
            forall|k: int| 0 <= k < i ==> v@[k] != x,
        decreases v.len() - i,
    {
        if v[i] == x {
            return true;
        }
        i += 1;
    }
    false
}

} // verus!
