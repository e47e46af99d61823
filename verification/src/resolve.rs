//! What a directory sees: the nearest definition of one key, and the merge
//! of all scopes above it.

use vstd::prelude::*;
use crate::keys::Key;
use crate::model::{lookup, scope_of, with_value, without_value, Pairs, Scopes};
use crate::path::{ancestors, lemma_ancestors_shape, parent};

verus! {

/// The value of `key` in the first scope of `chain` that defines it.
pub open spec fn first_in(scopes: Scopes, chain: Seq<Key>, key: Key) -> Option<Seq<char>>
    decreases chain.len(),
{
    if chain.len() == 0 {
        None
    } else {
        match lookup(scopes, chain[0], key) {
            Some(v) => Some(v),
            None => first_in(scopes, chain.drop_first(), key),
        }
    }
}

/// The scopes of `chain` laid over one another, the last one first, so that
/// an earlier scope's entries replace a later scope's.
pub open spec fn merged(scopes: Scopes, chain: Seq<Key>) -> Pairs
    decreases chain.len(),
{
    if chain.len() == 0 {
        Map::empty()
    } else {
        merged(scopes, chain.drop_first()).union_prefer_right(scope_of(scopes, chain[0]))
    }
}

/// The value of `key` seen from `dir`: that of the nearest scope, from `dir`
/// up to the root, that defines it.
pub open spec fn resolve_one(scopes: Scopes, dir: Key, key: Key) -> Option<Seq<char>> {
    first_in(scopes, ancestors(dir), key)
}

/// Everything seen from `dir`: all scopes from the root down to `dir` merged,
/// nearer ones over farther ones.
pub open spec fn resolve_all(scopes: Scopes, dir: Key) -> Pairs {
    merged(scopes, ancestors(dir))
}

/// Over any chain, the merge holds exactly the keys that some scope of the
/// chain defines, each with the value of the first scope that defines it.
pub proof fn lemma_merged_is_first(scopes: Scopes, chain: Seq<Key>, key: Key)
    ensures
        merged(scopes, chain).contains_key(key) <==> first_in(scopes, chain, key) is Some,
        merged(scopes, chain).contains_key(key) ==> first_in(scopes, chain, key) == Some(
            merged(scopes, chain)[key],
        ),
    decreases chain.len(),
{
    if chain.len() > 0 {
        lemma_merged_is_first(scopes, chain.drop_first(), key);
    }
}

/// The merged view and the single lookup agree: for every directory and every
/// key, the view holds the key exactly when the lookup finds it, and with the
/// value that the lookup returns.
pub proof fn lemma_resolve_all_is_resolve_one(scopes: Scopes, dir: Key, key: Key)
    ensures
        resolve_all(scopes, dir).contains_key(key) <==> resolve_one(scopes, dir, key) is Some,
        resolve_all(scopes, dir).contains_key(key) ==> resolve_one(scopes, dir, key) == Some(
            resolve_all(scopes, dir)[key],
        ),
{
    lemma_merged_is_first(scopes, ancestors(dir), key);
}

/// The nearest scope wins: a key that `dir` itself defines has that value,
/// and any other key is seen as the parent of `dir` sees it, or not at all
/// where `dir` has no parent.
pub proof fn lemma_nearest_scope_wins(scopes: Scopes, dir: Key, key: Key)
    ensures
        resolve_one(scopes, dir, key) == match lookup(scopes, dir, key) {
            Some(v) => Some(v),
            None => match parent(dir) {
                Some(p) => resolve_one(scopes, p, key),
                None => None,
            },
        },
{
    let chain = ancestors(dir);
    match parent(dir) {
        Some(p) => {
            assert(chain.drop_first() =~= ancestors(p));
        },
        None => {
            assert(chain.drop_first() =~= Seq::<Key>::empty());
            assert(first_in(scopes, chain.drop_first(), key) is None);
        },
    }
}

/// A change to the scope of `dir` alone does not show from a chain that
/// `dir` is not part of.
proof fn lemma_first_in_elsewhere(a: Scopes, b: Scopes, dir: Key, chain: Seq<Key>, key: Key)
    requires
        forall|d: Key| d != dir ==> scope_of(a, d) == scope_of(b, d),
        forall|i: int| 0 <= i < chain.len() ==> chain[i] != dir,
    ensures
        first_in(a, chain, key) == first_in(b, chain, key),
    decreases chain.len(),
{
    if chain.len() > 0 {
        assert(chain[0] != dir);
        assert forall|i: int| 0 <= i < chain.drop_first().len() implies chain.drop_first()[i]
            != dir by {
            assert(chain.drop_first()[i] == chain[i + 1]);
        }
        lemma_first_in_elsewhere(a, b, dir, chain.drop_first(), key);
    }
}

/// Once `dir` loses its own value for a key, the key is seen from `dir` as
/// the parent of `dir` saw it before, or not at all where `dir` has no
/// parent.
pub proof fn lemma_remove_uncovers_parent(scopes: Scopes, dir: Key, key: Key)
    ensures
        resolve_one(without_value(scopes, dir, key), dir, key) == match parent(dir) {
            Some(p) => resolve_one(scopes, p, key),
            None => None,
        },
{
    let after = without_value(scopes, dir, key);
    lemma_nearest_scope_wins(after, dir, key);
    match parent(dir) {
        Some(p) => {
            lemma_ancestors_shape(p);
            lemma_first_in_elsewhere(after, scopes, dir, ancestors(p), key);
        },
        None => {},
    }
}

/// A value set at `dir` is what `dir` sees for that key, whatever its
/// ancestors define.
pub proof fn lemma_set_is_seen(scopes: Scopes, dir: Key, key: Key, value: Seq<char>)
    ensures
        resolve_one(with_value(scopes, dir, key, value), dir, key) == Some(value),
{
    lemma_nearest_scope_wins(with_value(scopes, dir, key, value), dir, key);
}

} // verus!
