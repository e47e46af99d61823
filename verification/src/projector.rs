//! The store as seen from one working directory: reads walk up the ancestors
//! of that directory, writes go to the directory itself.

use vstd::prelude::*;
use crate::bindings::Bindings;
use crate::codec::{default_data, load, loaded};
use crate::keys::Key;
use crate::model::{with_value, without_value, Pairs, Scopes};
use crate::path::{ancestors, ancestors_of, parent, parent_dir, spellings};
use crate::resolve::{first_in, merged, resolve_all, resolve_one};
use crate::store::ScopedStore;

verus! {

/// A scoped store together with the working directory it is used from.
pub struct Projector {
    pwd: String,
    store: ScopedStore,
}

impl Projector {
    /// The working directory.
    pub closed spec fn dir(&self) -> Key {
        self.pwd@
    }

    /// All scopes of the store.
    pub closed spec fn scopes(&self) -> Scopes {
        self.store@
    }

    /// The store is well formed.
    pub closed spec fn well_formed(&self) -> bool {
        self.store.well_formed()
    }

    /// `store` as seen from `pwd`.
    pub fn new(pwd: String, store: ScopedStore) -> (r: Projector)
        requires
            store.well_formed(),
        ensures
            r.well_formed(),
            r.dir() == pwd@,
            r.scopes() == store@,
    {
        Projector { pwd, store }
    }

    /// The store of the persisted document as seen from `pwd`. `contents` is
    /// the text of the backing file, or nothing where the file is absent or
    /// cannot be read; that, and a text that does not decode, give the empty
    /// store.
    pub fn from_config(pwd: String, contents: Option<&str>) -> (r: Projector)
        ensures
            r.well_formed(),
            r.dir() == pwd@,
            r.scopes() == match contents {
                Some(text) => loaded(text@),
                None => Map::<Key, Pairs>::empty(),
            },
    {
        let store = match contents {
            Some(text) => load(text),
            None => default_data(),
        };
        Projector { pwd, store }
    }

    /// The working directory.
    pub fn pwd(&self) -> (p: &String)
        ensures
            p@ == self.dir(),
    {
        &self.pwd
    }

    /// The store, as it is to be written back.
    pub fn store(&self) -> (s: &ScopedStore)
        requires
            self.well_formed(),
        ensures
            s.well_formed(),
            s@ == self.scopes(),
    {
        &self.store
    }

    /// The value of `key` seen from the working directory: that of the
    /// nearest scope, from the directory up to the root, that defines it.
    pub fn get_value(&self, key: &str) -> (r: Option<&String>)
        requires
            self.well_formed(),
        ensures
            resolve_one(self.scopes(), self.dir(), key@) == match r {
                Some(v) => Some(v@),
                None => None::<Seq<char>>,
            },
    {
        let mut cur: Option<String> = Some(self.pwd.clone());
        while cur.is_some()
            invariant
                self.well_formed(),
                match cur {
                    Some(c) => resolve_one(self.scopes(), self.dir(), key@) == first_in(
                        self.scopes(),
                        ancestors(c@),
                        key@,
                    ),
                    None => resolve_one(self.scopes(), self.dir(), key@) is None,
                },
            decreases
                match cur {
                    Some(c) => c@.len() + 1,
                    None => 0,
                },
        {
            let c = cur.unwrap();
            let found = self.store.get(c.as_str(), key);
            if found.is_some() {
                return found;
            }
            let next = parent_dir(c.as_str());
            proof {
                let chain = ancestors(c@);
                match parent(c@) {
                    Some(p) => {
                        assert(chain.drop_first() =~= ancestors(p));
                    },
                    None => {
                        assert(chain.drop_first() =~= Seq::<Key>::empty());
                        assert(first_in(self.scopes(), chain.drop_first(), key@) is None);
                    },
                }
            }
            cur = next;
        }
        None
    }

    /// Everything seen from the working directory: the scopes from the root
    /// down to the directory merged, nearer ones over farther ones.
    pub fn get_all_value(&self) -> (r: Bindings)
        requires
            self.well_formed(),
        ensures
            r.well_formed(),
            r@ == resolve_all(self.scopes(), self.dir()),
    {
        let chain = ancestors_of(self.pwd.as_str());
        let ghost paths = spellings(chain@);
        let mut out = Bindings::new();
        let mut i: usize = chain.len();
        proof {
            assert(paths.subrange(i as int, paths.len() as int) =~= Seq::<Key>::empty());
        }
        while i > 0
            invariant
                self.well_formed(),
                out.well_formed(),
                i <= chain@.len(),
                paths == spellings(chain@),
                out@ == merged(self.scopes(), paths.subrange(i as int, paths.len() as int)),
            decreases i,
        {
            i -= 1;
            let ghost below = out@;
            match self.store.scope(chain[i].as_str()) {
                Some(b) => {
                    out.extend_from(b);
                },
                None => {
                    assert(below.union_prefer_right(Map::<Key, Seq<char>>::empty()) =~= below);
                },
            }
            proof {
                let rest = paths.subrange(i as int, paths.len() as int);
                assert(rest[0] == chain@[i as int]@);
                assert(rest.drop_first() =~= paths.subrange(i as int + 1, paths.len() as int));
            }
        }
        proof {
            assert(paths.subrange(0, paths.len() as int) =~= paths);
        }
        out
    }

    /// Sets `key` to `value` at the working directory itself, never at an
    /// ancestor.
    pub fn set_value(&mut self, key: String, value: String)
        requires
            old(self).well_formed(),
        ensures
            final(self).well_formed(),
            final(self).dir() == old(self).dir(),
            final(self).scopes() == with_value(old(self).scopes(), old(self).dir(), key@, value@),
    {
        let dir = self.pwd.clone();
        self.store.set(dir, key, value);
    }

    /// Removes `key` at the working directory itself; what ancestors define
    /// stays and shows again.
    pub fn remove_value(&mut self, key: &str)
        requires
            old(self).well_formed(),
        ensures
            final(self).well_formed(),
            final(self).dir() == old(self).dir(),
            final(self).scopes() == without_value(old(self).scopes(), old(self).dir(), key@),
    {
        let dir = self.pwd.clone();
        self.store.remove(dir.as_str(), key);
    }
}

} // verus!
