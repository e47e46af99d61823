//! The persisted document and the printed view. The JSON itself is read and
//! written by `serde_json`; which field holds the store, and how directories
//! and pairs become a store and a store becomes a document, is decided here.

use vstd::prelude::*;
use crate::bindings::Bindings;
use crate::keys::Key;
use crate::model::{pairs_of, scopes_of, Pairs, Scopes};
use crate::store::ScopedStore;

verus! {

/// The error of `serde_json`; nothing is read from it.
#[verifier::external_type_specification]
#[verifier::external_body]
pub struct ExJsonError(serde_json::Error);

/// What `serde_json::from_str` makes of `text` when asked for an object of
/// objects of objects of strings: the fields of the document in the order of
/// their names, each with its directories, each directory with its pairs; or
/// nothing where it reports an error.
pub uninterp spec fn decoded(text: Seq<char>) -> Option<
    Seq<(Seq<char>, Seq<(Seq<char>, Seq<(Seq<char>, Seq<char>)>)>)>,
>;

/// Calls `serde_json::from_str` for three levels of `BTreeMap` keyed by
/// strings, and lists each map in its own order. Not proved: that what comes
/// back is what `decoded` names for the same text.
#[verifier::external_body]
fn decode_document(text: &str) -> (r: Result<
    Vec<(String, Vec<(String, Vec<(String, String)>)>)>,
    serde_json::Error,
>)
    ensures
        decoded(text@) == match r {
            Ok(doc) => Some(doc.deep_view()),
            Err(_) => None,
        },
{
    let doc: std::collections::BTreeMap<
        String,
        std::collections::BTreeMap<String, std::collections::BTreeMap<String, String>>,
    > = serde_json::from_str(text)?;
    Ok(
        doc.into_iter().map(
            |(name, dirs)|
                (name, dirs.into_iter().map(|(dir, pairs)| (dir, pairs.into_iter().collect())).collect()),
        ).collect(),
    )
}

/// What `serde_json::to_string` writes for the map from string to string
/// that a list of pairs fills, a later pair replacing an earlier one with the
/// same key; or nothing where it reports an error.
pub uninterp spec fn encoded(pairs: Seq<(Seq<char>, Seq<char>)>) -> Option<Seq<char>>;

/// Fills a `BTreeMap` with the pairs and calls `serde_json::to_string` on
/// it. Not proved: that what comes back is what `encoded` names for the same
/// pairs.
#[verifier::external_body]
fn encode_pairs(pairs: &Vec<(String, String)>) -> (r: Result<String, serde_json::Error>)
    ensures
        encoded(pairs.deep_view()) == match r {
            Ok(text) => Some(text@),
            Err(_) => None,
        },
{
    let map: std::collections::BTreeMap<&String, &String> = pairs.iter().map(
        |pair| (&pair.0, &pair.1),
    ).collect();
    serde_json::to_string(&map)
}

/// A mapping could not be written as JSON.
#[derive(Debug, PartialEq, Eq)]
pub struct EncodeFailed {}

/// The name of the one field of the document that is read.
pub open spec fn field_name() -> Seq<char> {
    "projector"@
}

/// The store that a decoded document holds: that of the first field with the
/// name that is read, and the empty store where no field has it.
pub open spec fn store_in(doc: Seq<(Key, Seq<(Key, Seq<(Key, Seq<char>)>)>)>) -> Scopes
    decreases doc.len(),
{
    if doc.len() == 0 {
        Map::empty()
    } else if doc[0].0 == field_name() {
        scopes_of(doc[0].1)
    } else {
        store_in(doc.drop_first())
    }
}

/// The store that a text stands for: the empty one where the text does not
/// decode.
pub open spec fn loaded(text: Seq<char>) -> Scopes {
    match decoded(text) {
        Some(doc) => store_in(doc),
        None => Map::empty(),
    }
}

/// The store to fall back on: a well-formed store without any scope.
pub fn default_data() -> (r: ScopedStore)
    ensures
        r.well_formed(),
        r@ == Map::<Key, Pairs>::empty(),
{
    ScopedStore::new()
}

/// The mapping that `entries` spells out.
pub fn bindings_from(entries: &Vec<(String, String)>) -> (r: Bindings)
    ensures
        r.well_formed(),
        r@ == pairs_of(entries.deep_view()),
{
    let ghost all = entries.deep_view();
    let mut out = Bindings::new();
    let mut i: usize = 0;
    while i < entries.len()
        invariant
            i <= entries@.len(),
            all == entries.deep_view(),
            out.well_formed(),
            out@ == pairs_of(all.take(i as int)),
        decreases entries@.len() - i,
    {
        proof {
            assert(all.take(i as int + 1).drop_last() =~= all.take(i as int));
        }
        out.insert(entries[i].0.clone(), entries[i].1.clone());
        i += 1;
    }
    proof {
        assert(all.take(i as int) =~= all);
    }
    out
}

/// The store that `dirs` spells out.
pub fn store_from(dirs: &Vec<(String, Vec<(String, String)>)>) -> (r: ScopedStore)
    ensures
        r.well_formed(),
        r@ == scopes_of(dirs.deep_view()),
{
    let ghost all = dirs.deep_view();
    let mut out = ScopedStore::new();
    let mut i: usize = 0;
    while i < dirs.len()
        invariant
            i <= dirs@.len(),
            all == dirs.deep_view(),
            out.well_formed(),
            out@ == scopes_of(all.take(i as int)),
        decreases dirs@.len() - i,
    {
        proof {
            assert(all.take(i as int + 1).drop_last() =~= all.take(i as int));
        }
        let bindings = bindings_from(&dirs[i].1);
        out.put_scope(dirs[i].0.clone(), bindings);
        i += 1;
    }
    proof {
        assert(all.take(i as int) =~= all);
    }
    out
}

/// The store that a decoded document holds.
pub fn store_of_document(doc: &Vec<(String, Vec<(String, Vec<(String, String)>)>)>) -> (r:
    ScopedStore)
    ensures
        r.well_formed(),
        r@ == store_in(doc.deep_view()),
{
    let ghost all = doc.deep_view();
    let name = "projector".to_owned();
    let mut i: usize = 0;
    proof {
        assert(all.skip(0) =~= all);
    }
    while i < doc.len()
        invariant
            i <= doc@.len(),
            all == doc.deep_view(),
            name@ == field_name(),
            store_in(all) == store_in(all.skip(i as int)),
        decreases doc@.len() - i,
    {
        proof {
            assert(all.skip(i as int).drop_first() =~= all.skip(i as int + 1));
        }
        if doc[i].0 == name {
            return store_from(&doc[i].1);
        }
        i += 1;
    }
    default_data()
}

/// The document that holds `store`: one field, with every scope of the store
/// under it. Read back, it gives the same store.
pub fn document_of(store: &ScopedStore) -> (doc: Vec<(String, Vec<(String, Vec<(String, String)>)>)>)
    requires
        store.well_formed(),
    ensures
        doc.deep_view() == seq![(field_name(), store.listing())],
        store_in(doc.deep_view()) == store@,
{
    let mut doc: Vec<(String, Vec<(String, Vec<(String, String)>)>)> = Vec::new();
    let dirs = store.to_dirs();
    let name = "projector".to_owned();
    doc.push((name, dirs));
    proof {
        assert(doc.deep_view() =~= seq![(field_name(), store.listing())]);
    }
    doc
}

/// The mapping written as one JSON object, as it is printed.
pub fn render(bindings: &Bindings) -> (r: Result<String, EncodeFailed>)
    requires
        bindings.well_formed(),
    ensures
        encoded(bindings.listing()) == match r {
            Ok(text) => Some(text@),
            Err(_) => None,
        },
{
    let pairs = bindings.to_pairs();
    match encode_pairs(&pairs) {
        Ok(text) => Ok(text),
        Err(_) => Err(EncodeFailed {}),
    }
}

/// Reads a store from the text of the persisted document. A text that does
/// not decode gives the empty store, never an error.
pub fn load(text: &str) -> (r: ScopedStore)
    ensures
        r.well_formed(),
        r@ == loaded(text@),
        decoded(text@) is None ==> r@ == Map::<Key, Pairs>::empty(),
{
    match decode_document(text) {
        Ok(doc) => store_of_document(&doc),
        Err(_) => default_data(),
    }
}

} // verus!
