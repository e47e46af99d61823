//! The flat key/value mapping of one scope.

use vstd::prelude::*;
use crate::keys::{
    distinct, holds, lemma_count, lemma_holds_one_more, lemma_position_in_range,
    lemma_position_of, lemma_pushed, lemma_removed, position, Key,
};
use crate::model::pairs_of;

verus! {

/// One key with its value.
struct Entry {
    key: String,
    value: String,
}

/// A mapping from string keys to string values, held as a list in which no
/// key occurs twice.
pub struct Bindings {
    entries: Vec<Entry>,
}

impl View for Bindings {
    type V = Map<Key, Seq<char>>;

    closed spec fn view(&self) -> Map<Key, Seq<char>> {
        Map::new(
            |k: Key| holds(self.keys(), k),
            |k: Key| self.entries@[position(self.keys(), k)].value@,
        )
    }
}

impl Bindings {
    /// The keys in the order in which the list holds them.
    spec fn keys(&self) -> Seq<Key> {
        Seq::new(self.entries@.len(), |i: int| self.entries@[i].key@)
    }

    /// The values in the order in which the list holds them.
    spec fn values(&self) -> Seq<Seq<char>> {
        Seq::new(self.entries@.len(), |i: int| self.entries@[i].value@)
    }

    /// The list holds no key twice.
    pub closed spec fn well_formed(&self) -> bool {
        distinct(self.keys())
    }

    /// The mapping read off the list: each listed key maps to the value beside it.
    proof fn lemma_view(&self)
        requires
            self.well_formed(),
        ensures
            self.keys().len() == self.values().len(),
            distinct(self.keys()),
            forall|i: int|
                0 <= i < self.keys().len() ==> self@.contains_key(#[trigger] self.keys()[i])
                    && self@[self.keys()[i]] == self.values()[i],
            forall|k: Key| #[trigger] self@.contains_key(k) <==> holds(self.keys(), k),
    {
        assert forall|i: int| 0 <= i < self.keys().len() implies self@.contains_key(
            #[trigger] self.keys()[i],
        ) && self@[self.keys()[i]] == self.values()[i] by {
            lemma_position_of(self.keys(), i);
        }
    }

    /// The empty mapping.
    pub fn new() -> (r: Bindings)
        ensures
            r.well_formed(),
            r@ == Map::<Key, Seq<char>>::empty(),
            r.listing().len() == 0,
    {
        let r = Bindings { entries: Vec::new() };
        assert(r@ =~= Map::<Key, Seq<char>>::empty());
        r
    }

    /// The number of keys.
    pub fn len(&self) -> (n: usize)
        requires
            self.well_formed(),
        ensures
            self@.dom().finite(),
            n == self@.len(),
            n == self.listing().len(),
    {
        proof {
            lemma_count(self.keys());
            assert(self@.dom() =~= self.keys().to_set());
        }
        self.entries.len()
    }

    /// The place of `key` in the list, if it is there.
    fn find(&self, key: &String) -> (r: Option<usize>)
        ensures
            match r {
                Some(i) => i < self.keys().len() && self.keys()[i as int] == key@,
                None => !holds(self.keys(), key@),
            },
    {
        let mut i: usize = 0;
        while i < self.entries.len()
            invariant
                i <= self.entries@.len(),
                forall|j: int| 0 <= j < i ==> self.keys()[j] != key@,
            decreases self.entries@.len() - i,
        {
            if self.entries[i].key == *key {
                return Some(i);
            }
            i += 1;
        }
        None
    }

    /// The value of `key`, if the mapping has one.
    pub fn get(&self, key: &str) -> (r: Option<&String>)
        requires
            self.well_formed(),
        ensures
            match r {
                Some(v) => self@.contains_key(key@) && self@[key@] == v@,
                None => !self@.contains_key(key@),
            },
    {
        let owned = key.to_owned();
        match self.find(&owned) {
            Some(i) => {
                proof {
                    lemma_position_of(self.keys(), i as int);
                }
                Some(&self.entries[i].value)
            },
            None => None,
        }
    }

    /// Sets `key` to `value`, whether or not it had a value before.
    pub fn insert(&mut self, key: String, value: String)
        requires
            old(self).well_formed(),
        ensures
            final(self).well_formed(),
            final(self)@ == old(self)@.insert(key@, value@),
    {
        let ghost before = *self;
        match self.find(&key) {
            Some(i) => {
                self.entries.set(i, Entry { key, value });
                proof {
                    assert(self.keys() =~= before.keys());
                    lemma_position_of(self.keys(), i as int);
                    assert forall|k: Key| self@.contains_key(k) implies #[trigger] self@[k]
                        == before@.insert(key@, value@)[k] by {
                        lemma_position_in_range(self.keys(), k);
                    }
                }
            },
            None => {
                self.entries.push(Entry { key, value });
                proof {
                    assert(self.keys() =~= before.keys().push(key@));
                    lemma_pushed(before.keys(), key@);
                }
            },
        }
        assert(self@ =~= before@.insert(key@, value@));
    }

    /// Takes `key` and its value out; a mapping without `key` stays as it is.
    pub fn remove(&mut self, key: &str)
        requires
            old(self).well_formed(),
        ensures
            final(self).well_formed(),
            final(self)@ == old(self)@.remove(key@),
    {
        let ghost before = *self;
        let owned = key.to_owned();
        match self.find(&owned) {
            Some(i) => {
                self.entries.remove(i);
                proof {
                    assert(self.keys() =~= before.keys().remove(i as int));
                    lemma_removed(before.keys(), i as int);
                }
            },
            None => {},
        }
        assert(self@ =~= before@.remove(key@));
    }

    /// The mapping that the first `n` entries of the list make up.
    spec fn first(&self, n: int) -> Map<Key, Seq<char>> {
        Map::new(|k: Key| holds(self.keys().take(n), k), |k: Key| self@[k])
    }

    proof fn lemma_first_step(&self, n: int)
        requires
            self.well_formed(),
            0 <= n < self.keys().len(),
        ensures
            self.first(n + 1) == self.first(n).insert(self.keys()[n], self.values()[n]),
    {
        self.lemma_view();
        let keys = self.keys();
        lemma_holds_one_more(keys, n);
        assert(self.first(n + 1) =~= self.first(n).insert(keys[n], self.values()[n]));
    }

    proof fn lemma_first_all(&self)
        requires
            self.well_formed(),
        ensures
            self.first(0) == Map::<Key, Seq<char>>::empty(),
            self.first(self.keys().len() as int) == self@,
    {
        self.lemma_view();
        assert(self.keys().take(self.keys().len() as int) =~= self.keys());
        assert(self.first(0) =~= Map::<Key, Seq<char>>::empty());
        assert(self.first(self.keys().len() as int) =~= self@);
    }

    /// Lays `other` over this mapping: every key of `other` takes the value
    /// it has there, and the keys that `other` lacks keep theirs.
    pub fn extend_from(&mut self, other: &Bindings)
        requires
            old(self).well_formed(),
            other.well_formed(),
        ensures
            final(self).well_formed(),
            final(self)@ == old(self)@.union_prefer_right(other@),
    {
        let ghost before = *self;
        proof {
            other.lemma_first_all();
            assert(self@ =~= before@.union_prefer_right(other.first(0)));
        }
        let mut i: usize = 0;
        while i < other.entries.len()
            invariant
                i <= other.entries@.len(),
                other.entries@.len() == other.keys().len(),
                self.well_formed(),
                other.well_formed(),
                self@ == before@.union_prefer_right(other.first(i as int)),
            decreases other.entries@.len() - i,
        {
            let key = other.entries[i].key.clone();
            let value = other.entries[i].value.clone();
            proof {
                other.lemma_first_step(i as int);
                assert(before@.union_prefer_right(other.first(i as int)).insert(key@, value@)
                    =~= before@.union_prefer_right(other.first(i as int + 1)));
            }
            self.insert(key, value);
            i += 1;
        }
        proof {
            other.lemma_first_all();
        }
    }

    /// The pairs in the order in which the list holds them.
    pub closed spec fn listing(&self) -> Seq<(Key, Seq<char>)> {
        Seq::new(self.entries@.len(), |i: int| (self.entries@[i].key@, self.entries@[i].value@))
    }

    proof fn lemma_listing_upto(&self, n: int)
        requires
            self.well_formed(),
            0 <= n <= self.keys().len(),
        ensures
            pairs_of(self.listing().take(n)) == self.first(n),
        decreases n,
    {
        if n == 0 {
            self.lemma_first_all();
        } else {
            self.lemma_listing_upto(n - 1);
            self.lemma_first_step(n - 1);
            assert(self.listing().take(n).drop_last() =~= self.listing().take(n - 1));
        }
    }

    /// Read back pair by pair, the listing gives the mapping itself.
    pub proof fn lemma_listing(&self)
        requires
            self.well_formed(),
        ensures
            pairs_of(self.listing()) == self@,
    {
        let n = self.keys().len() as int;
        self.lemma_listing_upto(n);
        self.lemma_first_all();
        assert(self.listing().take(n) =~= self.listing());
    }

    /// The pairs as a plain list, in the order in which the mapping holds them.
    pub fn to_pairs(&self) -> (r: Vec<(String, String)>)
        requires
            self.well_formed(),
        ensures
            r.deep_view() == self.listing(),
            pairs_of(r.deep_view()) == self@,
    {
        let mut out: Vec<(String, String)> = Vec::new();
        let mut i: usize = 0;
        proof {
            assert(out.deep_view() =~= self.listing().take(0));
        }
        while i < self.entries.len()
            invariant
                i <= self.entries@.len(),
                out.deep_view() == self.listing().take(i as int),
            decreases self.entries@.len() - i,
        {
            let ghost before = out.deep_view();
            let key = self.entries[i].key.clone();
            let value = self.entries[i].value.clone();
            out.push((key, value));
            proof {
                assert(out.deep_view() =~= before.push((key@, value@)));
                assert(out.deep_view() =~= self.listing().take(i as int + 1));
            }
            i += 1;
        }
        proof {
            assert(self.listing().take(i as int) =~= self.listing());
            self.lemma_listing();
        }
        out
    }
}

} // verus!
