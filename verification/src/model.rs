//! The store as contracts see it: a map from directory to a map from key to
//! value, and what reading and writing one scope do to it.

use vstd::prelude::*;
use crate::keys::Key;

verus! {

/// The key/value pairs of one scope.
pub type Pairs = Map<Key, Seq<char>>;

/// All scopes, by directory.
pub type Scopes = Map<Key, Pairs>;

/// What `dir` itself defines: nothing where the store has no such scope.
pub open spec fn scope_of(scopes: Scopes, dir: Key) -> Pairs {
    if scopes.contains_key(dir) {
        scopes[dir]
    } else {
        Map::empty()
    }
}

/// The value that `dir` itself gives to `key`, ancestors left aside.
pub open spec fn lookup(scopes: Scopes, dir: Key, key: Key) -> Option<Seq<char>> {
    if scope_of(scopes, dir).contains_key(key) {
        Some(scope_of(scopes, dir)[key])
    } else {
        None
    }
}

/// The store after `key` is set to `value` at `dir`: the scope is made where
/// it was missing, and no other scope changes.
pub open spec fn with_value(scopes: Scopes, dir: Key, key: Key, value: Seq<char>) -> Scopes {
    scopes.insert(dir, scope_of(scopes, dir).insert(key, value))
}

/// The store after `key` is removed at `dir`: a scope that loses its last key
/// stays, empty; a store without the scope is unchanged.
pub open spec fn without_value(scopes: Scopes, dir: Key, key: Key) -> Scopes {
    if scopes.contains_key(dir) {
        scopes.insert(dir, scopes[dir].remove(key))
    } else {
        scopes
    }
}

/// The mapping that a list of pairs spells out; of two pairs with one key the
/// later one counts.
pub open spec fn pairs_of(entries: Seq<(Key, Seq<char>)>) -> Pairs
    decreases entries.len(),
{
    if entries.len() == 0 {
        Map::empty()
    } else {
        pairs_of(entries.drop_last()).insert(entries.last().0, entries.last().1)
    }
}

/// The store that a list of directories spells out, each with its pairs; a
/// directory without pairs is a scope all the same.
pub open spec fn scopes_of(dirs: Seq<(Key, Seq<(Key, Seq<char>)>)>) -> Scopes
    decreases dirs.len(),
{
    if dirs.len() == 0 {
        Map::empty()
    } else {
        scopes_of(dirs.drop_last()).insert(dirs.last().0, pairs_of(dirs.last().1))
    }
}

/// Setting a key twice to the same value leaves the store that setting it
/// once leaves.
pub proof fn lemma_set_twice(scopes: Scopes, dir: Key, key: Key, value: Seq<char>)
    ensures
        with_value(with_value(scopes, dir, key, value), dir, key, value) == with_value(
            scopes,
            dir,
            key,
            value,
        ),
{
    let once = with_value(scopes, dir, key, value);
    assert(scope_of(once, dir).insert(key, value) =~= scope_of(scopes, dir).insert(key, value));
    assert(with_value(once, dir, key, value) =~= once);
}

/// Of two values set for one key at one directory, the later one is read.
pub proof fn lemma_set_overwrites(
    scopes: Scopes,
    dir: Key,
    key: Key,
    first: Seq<char>,
    second: Seq<char>,
)
    ensures
        lookup(with_value(with_value(scopes, dir, key, first), dir, key, second), dir, key)
            == Some(second),
        lookup(with_value(scopes, dir, key, second), dir, key) == Some(second),
{
}

/// A key that is set and then removed at a directory is not defined there,
/// and every other key, there and in every other scope, reads as it did
/// before the two steps.
pub proof fn lemma_remove_after_set(
    scopes: Scopes,
    dir: Key,
    key: Key,
    value: Seq<char>,
    other_dir: Key,
    other_key: Key,
)
    ensures
        lookup(without_value(with_value(scopes, dir, key, value), dir, key), dir, key) is None,
        (other_dir != dir || other_key != key) ==> lookup(
            without_value(with_value(scopes, dir, key, value), dir, key),
            other_dir,
            other_key,
        ) == lookup(scopes, other_dir, other_key),
{
}

/// Removing a key touches nothing but that key at that directory.
pub proof fn lemma_remove_is_local(scopes: Scopes, dir: Key, key: Key, other_dir: Key, other_key: Key)
    ensures
        lookup(without_value(scopes, dir, key), dir, key) is None,
        (other_dir != dir || other_key != key) ==> lookup(
            without_value(scopes, dir, key),
            other_dir,
            other_key,
        ) == lookup(scopes, other_dir, other_key),
{
}

} // verus!
