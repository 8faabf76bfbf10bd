//! The in-memory index of the store: each key and the location of the record
//! that last set it.
use vstd::prelude::*;
use crate::assoc::{
    assoc_map, has_key, keys_distinct, lemma_assoc_empty, lemma_assoc_index, lemma_assoc_push,
    lemma_assoc_remove, lemma_assoc_update,
};
use crate::file::{DataValue, DataValueView};

verus! {

/// A map from keys to record locations; no key occurs twice.
pub struct DataIndex {
    items: Vec<(String, DataValue)>,
}

/// The (key, location) pairs of items.
pub open spec fn index_pairs(items: Seq<(String, DataValue)>) -> Seq<(Seq<char>, DataValueView)> {
    items.map_values(|p: (String, DataValue)| (p.0@, p.1@))
}

impl View for DataIndex {
    type V = Map<Seq<char>, DataValueView>;

    closed spec fn view(&self) -> Map<Seq<char>, DataValueView> {
        assoc_map(index_pairs(self.items@))
    }
}

impl DataIndex {
    /// No key occurs twice.
    pub closed spec fn wf(&self) -> bool {
        keys_distinct(index_pairs(self.items@))
    }

    /// An empty index.
    pub fn new() -> (r: DataIndex)
        ensures
            r.wf(),
            r@ == Map::<Seq<char>, DataValueView>::empty(),
    {
        let r = DataIndex { items: Vec::new() };
        proof {
            lemma_assoc_empty(index_pairs(r.items@));
        }
        r
    }

    /// The position of `key`.
    fn position(&self, key: &String) -> (r: Option<usize>)
        requires
            self.wf(),
        ensures
            match r {
                Some(i) => i < self.items@.len() && self.items@[i as int].0@ == key@,
                None => !self@.contains_key(key@),
            },
    {
        let mut i: usize = 0;
        while i < self.items.len()
            invariant
                0 <= i <= self.items@.len(),
                forall|j: int| 0 <= j < i ==> self.items@[j].0@ != key@,
            decreases self.items@.len() - i,
        {
            if self.items[i].0 == *key {
                return Some(i);
            }
            i = i + 1;
        }
        proof {
            let ps = index_pairs(self.items@);
            if has_key(ps, key@) {
                let j = choose|j: int| 0 <= j < ps.len() && ps[j].0 == key@;
                assert(self.items@[j].0@ == key@);
            }
        }
        None
    }

    /// The index holds `key`.
    pub fn contains_key(&self, key: &String) -> (r: bool)
        requires
            self.wf(),
        ensures
            r == self@.contains_key(key@),
    {
        match self.position(key) {
            Some(i) => {
                proof {
                    lemma_assoc_index(index_pairs(self.items@), i as int);
                }
                true
            },
            None => false,
        }
    }

    /// The location of `key`.
    pub fn get(&self, key: &String) -> (r: Option<&DataValue>)
        requires
            self.wf(),
        ensures
            match r {
                Some(v) => self@.contains_key(key@) && v@ == self@[key@],
                None => !self@.contains_key(key@),
            },
    {
        match self.position(key) {
            Some(i) => {
                proof {
                    lemma_assoc_index(index_pairs(self.items@), i as int);
                }
                Some(&self.items[i].1)
            },
            None => None,
        }
    }

    /// Sets the location of `key`.
    pub fn insert(&mut self, key: String, value: DataValue)
        requires
            old(self).wf(),
        ensures
            final(self).wf(),
            final(self)@ == old(self)@.insert(key@, value@),
    {
        let ghost ps = index_pairs(self.items@);
        match self.position(&key) {
            Some(i) => {
                proof {
                    lemma_assoc_update(ps, i as int, value@);
                    assert(index_pairs(self.items@.update(i as int, (key, value))) =~= ps.update(
                        i as int,
                        (ps[i as int].0, value@),
                    ));
                }
                self.items.set(i, (key, value));
            },
            None => {
                proof {
                    lemma_assoc_push(ps, key@, value@);
                    assert(index_pairs(self.items@.push((key, value))) =~= ps.push(
                        (key@, value@),
                    ));
                }
                self.items.push((key, value));
            },
        }
    }

    /// Removes `key`, if the index holds it.
    pub fn remove(&mut self, key: &String)
        requires
            old(self).wf(),
        ensures
            final(self).wf(),
            final(self)@ == old(self)@.remove(key@),
    {
        let ghost ps = index_pairs(self.items@);
        match self.position(key) {
            Some(i) => {
                proof {
                    lemma_assoc_remove(ps, i as int);
                    assert(index_pairs(self.items@.remove(i as int)) =~= ps.remove(i as int));
                }
                self.items.remove(i);
            },
            None => {
                proof {
                    assert(self@ =~= old(self)@.remove(key@));
                }
            },
        }
    }

    /// A copy of the index.
    pub fn duplicate(&self) -> (r: DataIndex)
        requires
            self.wf(),
        ensures
            r.wf(),
            r@ == self@,
    {
        let mut items: Vec<(String, DataValue)> = Vec::new();
        let mut i: usize = 0;
        while i < self.items.len()
            invariant
                0 <= i <= self.items@.len(),
                index_pairs(items@) == index_pairs(self.items@).take(i as int),
            decreases self.items@.len() - i,
        {
            let item = (self.items[i].0.clone(), self.items[i].1.clone());
            let ghost prev = items@;
            items.push(item);
            proof {
                assert(index_pairs(items@) =~= index_pairs(prev).push((item.0@, item.1@)));
                assert(index_pairs(self.items@).take(i + 1) =~= index_pairs(self.items@).take(
                    i as int,
                ).push((item.0@, item.1@)));
            }
            i = i + 1;
        }
        proof {
            assert(index_pairs(self.items@).take(i as int) =~= index_pairs(self.items@));
        }
        DataIndex { items }
    }

    /// The number of keys.
    pub fn len(&self) -> (n: usize)
        requires
            self.wf(),
        ensures
            n == self@.len(),
    {
        proof {
            let ps = index_pairs(self.items@);
            ps.map_values(|p: (Seq<char>, DataValueView)| p.0).unique_seq_to_set();
            assert(ps.map_values(|p: (Seq<char>, DataValueView)| p.0).to_set() =~= self@.dom()) by {
                assert forall|k: Seq<char>| #[trigger] self@.dom().contains(k) implies ps.map_values(
                    |p: (Seq<char>, DataValueView)| p.0,
                ).contains(k) by {
                    let j = choose|j: int| 0 <= j < ps.len() && ps[j].0 == k;
                    assert(ps.map_values(|p: (Seq<char>, DataValueView)| p.0)[j] == k);
                }
            }
        }
        self.items.len()
    }
}

} // verus!
