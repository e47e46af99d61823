//! The scoped store: every directory that has had a key set, with its own
//! flat mapping. It knows nothing of ancestors.

use vstd::prelude::*;
use crate::bindings::Bindings;
use crate::keys::{
    distinct, holds, lemma_count, lemma_holds_one_more, lemma_position_in_range,
    lemma_position_of, lemma_pushed, position, Key,
};
use crate::model::{lookup, scopes_of, with_value, without_value, Pairs, Scopes};

verus! {

/// One directory with the mapping attached to it.
struct Scope {
    path: String,
    bindings: Bindings,
}

/// The whole data set, held as a list in which no directory occurs twice.
pub struct ScopedStore {
    scopes: Vec<Scope>,
}

impl View for ScopedStore {
    type V = Scopes;

    closed spec fn view(&self) -> Scopes {
        Map::new(
            |p: Key| holds(self.paths(), p),
            |p: Key| self.scopes@[position(self.paths(), p)].bindings@,
        )
    }
}

impl ScopedStore {
    /// The directories in the order in which the list holds them.
    spec fn paths(&self) -> Seq<Key> {
        Seq::new(self.scopes@.len(), |i: int| self.scopes@[i].path@)
    }

    /// The mappings in the order in which the list holds them.
    spec fn mappings(&self) -> Seq<Pairs> {
        Seq::new(self.scopes@.len(), |i: int| self.scopes@[i].bindings@)
    }

    /// No directory is listed twice, and every mapping is well formed.
    pub closed spec fn well_formed(&self) -> bool {
        &&& distinct(self.paths())
        &&& forall|i: int|
            0 <= i < self.scopes@.len() ==> (#[trigger] self.scopes@[i]).bindings.well_formed()
    }

    /// The map read off the list: each listed directory maps to the mapping
    /// beside it.
    proof fn lemma_view(&self)
        requires
            self.well_formed(),
        ensures
            self.paths().len() == self.mappings().len(),
            distinct(self.paths()),
            forall|i: int|
                0 <= i < self.paths().len() ==> self@.contains_key(#[trigger] self.paths()[i])
                    && self@[self.paths()[i]] == self.mappings()[i],
            forall|p: Key| #[trigger] self@.contains_key(p) <==> holds(self.paths(), p),
    {
        assert forall|i: int| 0 <= i < self.paths().len() implies self@.contains_key(
            #[trigger] self.paths()[i],
        ) && self@[self.paths()[i]] == self.mappings()[i] by {
            lemma_position_of(self.paths(), i);
        }
    }

    /// The store without any scope.
    pub fn new() -> (r: ScopedStore)
        ensures
            r.well_formed(),
            r@ == Map::<Key, Pairs>::empty(),
            r.listing().len() == 0,
    {
        let r = ScopedStore { scopes: Vec::new() };
        assert(r@ =~= Map::<Key, Pairs>::empty());
        r
    }

    /// The number of scopes, the emptied ones included.
    pub fn len(&self) -> (n: usize)
        requires
            self.well_formed(),
        ensures
            self@.dom().finite(),
            n == self@.len(),
            n == self.listing().len(),
    {
        proof {
            lemma_count(self.paths());
            assert(self@.dom() =~= self.paths().to_set());
        }
        self.scopes.len()
    }

    /// The place of `dir` in the list, if it is there.
    fn find(&self, dir: &String) -> (r: Option<usize>)
        ensures
            match r {
                Some(i) => i < self.paths().len() && self.paths()[i as int] == dir@,
                None => !holds(self.paths(), dir@),
            },
    {
        let mut i: usize = 0;
        while i < self.scopes.len()
            invariant
                i <= self.scopes@.len(),
                forall|j: int| 0 <= j < i ==> self.paths()[j] != dir@,
            decreases self.scopes@.len() - i,
        {
            if self.scopes[i].path == *dir {
                return Some(i);
            }
            i += 1;
        }
        None
    }

    /// The mapping attached to `dir` itself, if the store has that scope.
    pub fn scope(&self, dir: &str) -> (r: Option<&Bindings>)
        requires
            self.well_formed(),
        ensures
            match r {
                Some(b) => self@.contains_key(dir@) && b@ == self@[dir@] && b.well_formed(),
                None => !self@.contains_key(dir@),
            },
    {
        let owned = dir.to_owned();
        match self.find(&owned) {
            Some(i) => {
                proof {
                    lemma_position_of(self.paths(), i as int);
                }
                Some(&self.scopes[i].bindings)
            },
            None => None,
        }
    }

    /// The value that `dir` itself gives to `key`; ancestors are not asked.
    pub fn get(&self, dir: &str, key: &str) -> (r: Option<&String>)
        requires
            self.well_formed(),
        ensures
            match r {
                Some(v) => lookup(self@, dir@, key@) == Some(v@),
                None => lookup(self@, dir@, key@) is None,
            },
    {
        match self.scope(dir) {
            Some(b) => b.get(key),
            None => None,
        }
    }

    /// With the same directories as `before` and the same mappings but for
    /// the one at place `i`, the store is `before` with that mapping put
    /// under its directory.
    proof fn lemma_replaced(&self, before: ScopedStore, i: int)
        requires
            before.well_formed(),
            0 <= i < before.scopes@.len(),
            self.scopes@.len() == before.scopes@.len(),
            self.scopes@[i].path@ == before.scopes@[i].path@,
            self.scopes@[i].bindings.well_formed(),
            forall|j: int|
                0 <= j < before.scopes@.len() && j != i ==> self.scopes@[j] == before.scopes@[j],
        ensures
            self.well_formed(),
            self@ == before@.insert(before.paths()[i], self.scopes@[i].bindings@),
    {
        assert(self.paths() =~= before.paths());
        lemma_position_of(self.paths(), i);
        assert forall|p: Key| self@.contains_key(p) implies #[trigger] self@[p] == before@.insert(
            before.paths()[i],
            self.scopes@[i].bindings@,
        )[p] by {
            lemma_position_in_range(self.paths(), p);
        }
        assert(self@ =~= before@.insert(before.paths()[i], self.scopes@[i].bindings@));
    }

    /// Sets `key` to `value` at `dir`, making the scope if it is missing.
    pub fn set(&mut self, dir: String, key: String, value: String)
        requires
            old(self).well_formed(),
        ensures
            final(self).well_formed(),
            final(self)@ == with_value(old(self)@, dir@, key@, value@),
    {
        let ghost before = *self;
        match self.find(&dir) {
            Some(i) => {
                let mut scope = self.scopes.remove(i);
                scope.bindings.insert(key, value);
                self.scopes.insert(i, scope);
                proof {
                    lemma_position_of(before.paths(), i as int);
                    self.lemma_replaced(before, i as int);
                }
            },
            None => {
                let mut bindings = Bindings::new();
                bindings.insert(key, value);
                self.put_scope(dir, bindings);
            },
        }
    }

    /// Attaches `bindings` to `dir` as its whole mapping, in place of any
    /// mapping that `dir` had.
    pub fn put_scope(&mut self, dir: String, bindings: Bindings)
        requires
            old(self).well_formed(),
            bindings.well_formed(),
        ensures
            final(self).well_formed(),
            final(self)@ == old(self)@.insert(dir@, bindings@),
    {
        let ghost before = *self;
        match self.find(&dir) {
            Some(i) => {
                self.scopes.set(i, Scope { path: dir, bindings });
                proof {
                    self.lemma_replaced(before, i as int);
                }
            },
            None => {
                self.scopes.push(Scope { path: dir, bindings });
                proof {
                    assert(self.paths() =~= before.paths().push(dir@));
                    lemma_pushed(before.paths(), dir@);
                    assert(self@ =~= before@.insert(dir@, bindings@));
                }
            },
        }
    }

    /// Removes `key` at `dir`. A store without the scope, or a scope without
    /// the key, stays as it is; a scope that loses its last key stays, empty.
    pub fn remove(&mut self, dir: &str, key: &str)
        requires
            old(self).well_formed(),
        ensures
            final(self).well_formed(),
            final(self)@ == without_value(old(self)@, dir@, key@),
    {
        let ghost before = *self;
        let owned = dir.to_owned();
        match self.find(&owned) {
            Some(i) => {
                let mut scope = self.scopes.remove(i);
                scope.bindings.remove(key);
                self.scopes.insert(i, scope);
                proof {
                    lemma_position_of(before.paths(), i as int);
                    self.lemma_replaced(before, i as int);
                }
            },
            None => {},
        }
    }

    /// The scopes that the first `n` places of the list make up.
    spec fn first(&self, n: int) -> Scopes {
        Map::new(|p: Key| holds(self.paths().take(n), p), |p: Key| self@[p])
    }

    proof fn lemma_first_step(&self, n: int)
        requires
            self.well_formed(),
            0 <= n < self.paths().len(),
        ensures
            self.first(n + 1) == self.first(n).insert(self.paths()[n], self.mappings()[n]),
    {
        self.lemma_view();
        lemma_holds_one_more(self.paths(), n);
        assert(self.first(n + 1) =~= self.first(n).insert(self.paths()[n], self.mappings()[n]));
    }

    proof fn lemma_first_all(&self)
        requires
            self.well_formed(),
        ensures
            self.first(0) == Map::<Key, Pairs>::empty(),
            self.first(self.paths().len() as int) == self@,
    {
        self.lemma_view();
        assert(self.paths().take(self.paths().len() as int) =~= self.paths());
        assert(self.first(0) =~= Map::<Key, Pairs>::empty());
        assert(self.first(self.paths().len() as int) =~= self@);
    }

    /// The directories, each with its pairs, in the order in which the list
    /// holds them.
    pub closed spec fn listing(&self) -> Seq<(Key, Seq<(Key, Seq<char>)>)> {
        Seq::new(
            self.scopes@.len(),
            |i: int| (self.scopes@[i].path@, self.scopes@[i].bindings.listing()),
        )
    }

    proof fn lemma_listing_upto(&self, n: int)
        requires
            self.well_formed(),
            0 <= n <= self.paths().len(),
        ensures
            scopes_of(self.listing().take(n)) == self.first(n),
        decreases n,
    {
        if n == 0 {
            self.lemma_first_all();
        } else {
            self.lemma_listing_upto(n - 1);
            self.lemma_first_step(n - 1);
            self.scopes@[n - 1].bindings.lemma_listing();
            assert(self.listing().take(n).drop_last() =~= self.listing().take(n - 1));
        }
    }

    /// Read back directory by directory, the listing gives the store itself.
    pub proof fn lemma_listing(&self)
        requires
            self.well_formed(),
        ensures
            scopes_of(self.listing()) == self@,
    {
        let n = self.paths().len() as int;
        self.lemma_listing_upto(n);
        self.lemma_first_all();
        assert(self.listing().take(n) =~= self.listing());
    }

    /// The store as a plain list of directories, each with its pairs, the
    /// emptied scopes included.
    pub fn to_dirs(&self) -> (r: Vec<(String, Vec<(String, String)>)>)
        requires
            self.well_formed(),
        ensures
            r.deep_view() == self.listing(),
            scopes_of(r.deep_view()) == self@,
    {
        let mut out: Vec<(String, Vec<(String, String)>)> = Vec::new();
        let mut i: usize = 0;
        proof {
            assert(out.deep_view() =~= self.listing().take(0));
        }
        while i < self.scopes.len()
            invariant
                self.well_formed(),
                i <= self.scopes@.len(),
                out.deep_view() == self.listing().take(i as int),
            decreases self.scopes@.len() - i,
        {
            let ghost before = out.deep_view();
            let dir = self.scopes[i].path.clone();
            let pairs = self.scopes[i].bindings.to_pairs();
            out.push((dir, pairs));
            proof {
                assert(out.deep_view() =~= before.push((dir@, pairs.deep_view())));
                assert(out.deep_view() =~= self.listing().take(i as int + 1));
            }
            i += 1;
        }
        proof {
            assert(self.listing().take(i as int) =~= self.listing());
            self.lemma_listing();
        }
        out
    }
}

} // verus!
