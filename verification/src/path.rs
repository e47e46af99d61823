//! Directories and their ancestors. What the parent of a path is, the
//! standard library decides; this module walks upward with it.

use vstd::prelude::*;
use crate::keys::Key;

verus! {

/// What `std::path::Path::parent` returns for the path spelled `path`, each
/// path taken by its spelling. Paths are read by the rules of the platform
/// that the library is built for; under those the result depends on the
/// spelling alone.
pub uninterp spec fn parent_of(path: Seq<char>) -> Option<Seq<char>>;

/// Calls `std::path::Path::parent` on the path that `path` spells and hands
/// back the spelling of what it returns. Not proved: that the result is the
/// one named `parent_of`, and that a parent, being the path without its final
/// component, is spelled with fewer characters than the path itself.
#[verifier::external_body]
fn path_parent(path: &str) -> (r: Option<String>)
    ensures
        parent_of(path@) == match r {
            Some(p) => Some(p@),
            None => None::<Seq<char>>,
        },
        r matches Some(p) ==> p@.len() < path@.len(),
{
    match std::path::Path::new(path).parent() {
        Some(p) => Some(p.to_string_lossy().into_owned()),
        None => None,
    }
}

/// The parent of `dir` as the walk upward uses it: the path one component
/// shorter, and none for a root, a prefix or the empty path.
pub open spec fn parent(dir: Key) -> Option<Key> {
    match parent_of(dir) {
        Some(p) => if p.len() < dir.len() {
            Some(p)
        } else {
            None
        },
        None => None,
    }
}

/// The chain of scopes that apply to `dir`: `dir` itself, its parent, that
/// one's parent, and so on up to the path that has no parent, which is last.
pub open spec fn ancestors(dir: Key) -> Seq<Key>
    decreases dir.len(),
{
    match parent(dir) {
        Some(p) => seq![dir] + ancestors(p),
        None => seq![dir],
    }
}

/// The spellings of a list of strings.
pub open spec fn spellings(paths: Seq<String>) -> Seq<Key> {
    Seq::new(paths.len(), |i: int| paths[i]@)
}

/// The chain starts with the directory itself, and no path in it is spelled
/// with more characters than the directory.
pub proof fn lemma_ancestors_shape(dir: Key)
    ensures
        ancestors(dir).len() >= 1,
        ancestors(dir)[0] == dir,
        forall|i: int| 0 <= i < ancestors(dir).len() ==> (#[trigger] ancestors(dir)[i]).len() <= dir.len(),
        forall|i: int| 1 <= i < ancestors(dir).len() ==> (#[trigger] ancestors(dir)[i]).len() < dir.len(),
    decreases dir.len(),
{
    match parent(dir) {
        Some(p) => {
            lemma_ancestors_shape(p);
            assert forall|i: int| 1 <= i < ancestors(dir).len() implies (#[trigger] ancestors(
                dir,
            )[i]).len() < dir.len() by {
                assert(ancestors(dir)[i] == ancestors(p)[i - 1]);
            }
        },
        None => {},
    }
}

/// Each path of the chain after the first is the parent of the one before
/// it, and the last one has no parent.
pub proof fn lemma_ancestors_linked(dir: Key)
    ensures
        forall|i: int|
            0 <= i < ancestors(dir).len() - 1 ==> parent(#[trigger] ancestors(dir)[i]) == Some(
                ancestors(dir)[i + 1],
            ),
        parent(ancestors(dir).last()) is None,
    decreases dir.len(),
{
    match parent(dir) {
        Some(p) => {
            lemma_ancestors_linked(p);
            lemma_ancestors_shape(p);
            assert forall|i: int| 0 <= i < ancestors(dir).len() - 1 implies parent(
                #[trigger] ancestors(dir)[i],
            ) == Some(ancestors(dir)[i + 1]) by {
                if i > 0 {
                    assert(ancestors(dir)[i] == ancestors(p)[i - 1]);
                    assert(ancestors(dir)[i + 1] == ancestors(p)[i]);
                }
            }
            assert(ancestors(dir).last() == ancestors(p).last());
        },
        None => {},
    }
}

/// The parent of `dir`, if it has one.
pub fn parent_dir(dir: &str) -> (r: Option<String>)
    ensures
        parent(dir@) == match r {
            Some(p) => Some(p@),
            None => None::<Seq<char>>,
        },
{
    path_parent(dir)
}

/// The chain of scopes that apply to `dir`, nearest first.
pub fn ancestors_of(dir: &str) -> (chain: Vec<String>)
    ensures
        spellings(chain@) == ancestors(dir@),
{
    let mut chain: Vec<String> = Vec::new();
    let mut cur: Option<String> = Some(dir.to_owned());
    proof {
        assert(spellings(chain@) + ancestors(dir@) =~= ancestors(dir@));
    }
    while cur.is_some()
        invariant
            match cur {
                Some(c) => ancestors(dir@) == spellings(chain@) + ancestors(c@),
                None => ancestors(dir@) == spellings(chain@),
            },
        decreases
            match cur {
                Some(c) => c@.len() + 1,
                None => 0,
            },
    {
        let c = cur.unwrap();
        let next = parent_dir(c.as_str());
        let ghost before = spellings(chain@);
        chain.push(c);
        proof {
            assert(spellings(chain@) =~= before + seq![c@]);
            if let Some(p) = parent(c@) {
                assert(before + (seq![c@] + ancestors(p)) =~= (before + seq![c@]) + ancestors(p));
            }
        }
        cur = next;
    }
    chain
}

} // verus!
