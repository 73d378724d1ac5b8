//! A map from strings to values that remembers the order in which its keys
//! first came in.
use vstd::prelude::*;

verus! {

/// Keys and their values, kept side by side; no key occurs twice.
pub struct KeyedList<V> {
    keys: Vec<String>,
    vals: Vec<V>,
}

impl<V> KeyedList<V> {
    /// The keys, in the order in which they came in.
    pub closed spec fn key_seq(&self) -> Seq<Seq<char>> {
        self.keys@.map_values(|s: String| s@)
    }

    /// The values, in the order of their keys.
    pub closed spec fn val_seq(&self) -> Seq<V> {
        self.vals@
    }

    /// Keys and values line up, and no key occurs twice.
    pub closed spec fn wf(&self) -> bool {
        &&& self.keys@.len() == self.vals@.len()
        &&& self.key_seq().no_duplicates()
    }

    /// The map from each key to its value.
    pub closed spec fn view(&self) -> Map<Seq<char>, V> {
        Map::new(
            |k: Seq<char>| self.key_seq().contains(k),
            |k: Seq<char>| self.vals@[self.key_seq().index_of(k)],
        )
    }

    /// The entry at position `i` is what the map holds for its key.
    pub proof fn lemma_view_at(&self, i: int)
        requires
            self.wf(),
            0 <= i < self.key_seq().len(),
        ensures
            self.view().contains_key(self.key_seq()[i]),
            self.view()[self.key_seq()[i]] == self.val_seq()[i],
    {
        let k = self.key_seq()[i];
        assert(self.key_seq().contains(k));
        let j = self.key_seq().index_of(k);
        assert(self.key_seq()[j] == k);
    }

    /// Keys and values line up, no key occurs twice, and the keys are what
    /// the map holds.
    pub proof fn lemma_shape(&self)
        requires
            self.wf(),
        ensures
            self.key_seq().len() == self.val_seq().len(),
            self.key_seq().no_duplicates(),
            forall|k: Seq<char>| #[trigger] self.view().contains_key(k) <==> self.key_seq().contains(k),
    {
    }

    /// The key at position `i`.
    pub fn key_at(&self, i: usize) -> (r: &String)
        requires
            self.wf(),
            i < self.key_seq().len(),
        ensures
            r@ == self.key_seq()[i as int],
    {
        &self.keys[i]
    }

    /// The value at position `i`.
    pub fn value_at(&self, i: usize) -> (r: &V)
        requires
            self.wf(),
            i < self.key_seq().len(),
        ensures
            *r == self.val_seq()[i as int],
    {
        &self.vals[i]
    }

    /// Gives the key at position `i` the value `v`.
    pub fn set_value_at(&mut self, i: usize, v: V)
        requires
            old(self).wf(),
            i < old(self).key_seq().len(),
        ensures
            final(self).wf(),
            final(self).key_seq() == old(self).key_seq(),
            final(self).val_seq() == old(self).val_seq().update(i as int, v),
            final(self).view() == old(self).view().insert(old(self).key_seq()[i as int], v),
    {
        self.vals.set(i, v);
        proof {
            let k = old(self).key_seq()[i as int];
            assert(self.key_seq() == old(self).key_seq());
            assert forall|key: Seq<char>| #[trigger] self.view().contains_key(key)
                == old(self).view().insert(k, v).contains_key(key) by {
                if key == k {
                    assert(old(self).key_seq().contains(k));
                }
            }
            assert forall|key: Seq<char>| self.view().contains_key(key) implies
                #[trigger] self.view()[key] == old(self).view().insert(k, v)[key] by {
                let j = self.key_seq().index_of(key);
                assert(self.key_seq()[j] == key);
                self.lemma_view_at(j);
                if key == k {
                    assert(j == i);
                } else {
                    old(self).lemma_view_at(j);
                }
            }
            assert(self.view() =~= old(self).view().insert(k, v));
        }
    }

    /// A map with nothing in it.
    pub fn new() -> (r: Self)
        ensures
            r.wf(),
            r.key_seq() == Seq::<Seq<char>>::empty(),
            r.view() == Map::<Seq<char>, V>::empty(),
    {
        let r = KeyedList { keys: Vec::new(), vals: Vec::new() };
        assert(r.key_seq() =~= Seq::<Seq<char>>::empty());
        assert(r.view() =~= Map::<Seq<char>, V>::empty());
        r
    }

    /// The number of keys.
    pub fn len(&self) -> (n: usize)
        requires
            self.wf(),
        ensures
            n == self.key_seq().len(),
    {
        self.keys.len()
    }

    /// The keys, in the order in which they came in.
    pub fn keys(&self) -> (r: &Vec<String>)
        ensures
            r@.map_values(|s: String| s@) == self.key_seq(),
    {
        &self.keys
    }

    /// The position of `k` among the keys, if it is one.
    pub fn find(&self, k: &str) -> (r: Option<usize>)
        requires
            self.wf(),
        ensures
            r is Some ==> r->0 < self.key_seq().len() && self.key_seq()[r->0 as int] == k@,
            r is None <==> !self.view().contains_key(k@),
    {
        let target = String::from_str(k);
        let mut i: usize = 0;
        while i < self.keys.len()
            invariant
                i <= self.keys@.len(),
                self.wf(),
                target@ == k@,
                forall|j: int| 0 <= j < i ==> self.key_seq()[j] != k@,
            decreases self.keys@.len() - i,
        {
            if self.keys[i] == target {
                assert(self.key_seq()[i as int] == k@);
                assert(self.key_seq().contains(k@));
                return Some(i);
            }
            i += 1;
        }
        None
    }

    /// Whether `k` is a key.
    pub fn contains_key(&self, k: &str) -> (r: bool)
        requires
            self.wf(),
        ensures
            r == self.view().contains_key(k@),
    {
        self.find(k).is_some()
    }

    /// The value of `k`, if it is a key.
    pub fn get(&self, k: &str) -> (r: Option<&V>)
        requires
            self.wf(),
        ensures
            r is Some <==> self.view().contains_key(k@),
            r is Some ==> *r->0 == self.view()[k@],
    {
        match self.find(k) {
            Some(i) => {
                proof {
                    self.lemma_view_at(i as int);
                }
                Some(&self.vals[i])
            },
            None => None,
        }
    }

    /// Gives `k` the value `v`; a new key goes after the others.
    pub fn insert(&mut self, k: String, v: V)
        requires
            old(self).wf(),
        ensures
            final(self).wf(),
            final(self).view() == old(self).view().insert(k@, v),
            old(self).view().contains_key(k@) ==> final(self).key_seq() == old(self).key_seq(),
            !old(self).view().contains_key(k@) ==> final(self).key_seq() == old(self).key_seq().push(k@),
    {
        match self.find(k.as_str()) {
            Some(i) => {
                self.vals.set(i, v);
                proof {
                    assert(self.key_seq() == old(self).key_seq());
                    assert forall|key: Seq<char>| #[trigger] self.view().contains_key(key)
                        == old(self).view().insert(k@, v).contains_key(key) by {}
                    assert forall|key: Seq<char>| self.view().contains_key(key) implies
                        #[trigger] self.view()[key] == old(self).view().insert(k@, v)[key] by {
                        let j = self.key_seq().index_of(key);
                        assert(self.key_seq()[j] == key);
                        self.lemma_view_at(j);
                        if key == k@ {
                            assert(j == i);
                        } else {
                            old(self).lemma_view_at(j);
                        }
                    }
                    assert(self.view() =~= old(self).view().insert(k@, v));
                }
            },
            None => {
                let ghost ks = k@;
                self.keys.push(k);
                self.vals.push(v);
                proof {
                    assert(self.key_seq() =~= old(self).key_seq().push(ks));
                    let n = old(self).key_seq().len() as int;
                    assert forall|a: int, b: int|
                        0 <= a < self.key_seq().len() && 0 <= b < self.key_seq().len() && a != b
                        implies self.key_seq()[a] != self.key_seq()[b] by {
                        if a == n {
                            assert(old(self).key_seq()[b] == self.key_seq()[b]);
                        } else if b == n {
                            assert(old(self).key_seq()[a] == self.key_seq()[a]);
                        }
                    }
                    assert forall|key: Seq<char>| #[trigger] self.view().contains_key(key)
                        == old(self).view().insert(ks, v).contains_key(key) by {
                        if old(self).key_seq().contains(key) {
                            let j = old(self).key_seq().index_of(key);
                            assert(self.key_seq()[j] == key);
                        }
                        if key == ks {
                            assert(self.key_seq()[n] == key);
                        }
                    }
                    assert forall|key: Seq<char>| self.view().contains_key(key) implies
                        #[trigger] self.view()[key] == old(self).view().insert(ks, v)[key] by {
                        let j = self.key_seq().index_of(key);
                        assert(self.key_seq()[j] == key);
                        self.lemma_view_at(j);
                        if key != ks {
                            assert(j < n);
                            old(self).lemma_view_at(j);
                        }
                    }
                    assert(self.view() =~= old(self).view().insert(ks, v));
                }
            },
        }
    }
}

} // verus!
