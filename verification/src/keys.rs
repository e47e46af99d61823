//! Sequences of distinct keys, and the place of a key in one.

use vstd::prelude::*;

verus! {

/// A key as contracts see it: the characters of a string.
pub type Key = Seq<char>;

/// No key stands at two places.
pub open spec fn distinct(keys: Seq<Key>) -> bool {
    forall|i: int, j: int| 0 <= i < j < keys.len() ==> keys[i] != keys[j]
}

/// `k` stands somewhere in `keys`.
pub open spec fn holds(keys: Seq<Key>, k: Key) -> bool {
    exists|i: int| 0 <= i < keys.len() && #[trigger] keys[i] == k
}

/// A place at which `k` stands, where there is one.
pub open spec fn position(keys: Seq<Key>, k: Key) -> int {
    choose|i: int| 0 <= i < keys.len() && #[trigger] keys[i] == k
}

/// Among distinct keys, the key at place `i` is found at `i` and nowhere else.
pub proof fn lemma_position_of(keys: Seq<Key>, i: int)
    requires
        distinct(keys),
        0 <= i < keys.len(),
    ensures
        holds(keys, keys[i]),
        position(keys, keys[i]) == i,
{
    let p = position(keys, keys[i]);
    assert(0 <= p < keys.len() && keys[p] == keys[i]);
    if p < i {
        assert(keys[p] != keys[i]);
    } else if i < p {
        assert(keys[i] != keys[p]);
    }
}

/// A key that `holds` has its `position` inside the sequence, and stands there.
pub proof fn lemma_position_in_range(keys: Seq<Key>, k: Key)
    requires
        holds(keys, k),
    ensures
        0 <= position(keys, k) < keys.len(),
        keys[position(keys, k)] == k,
{
}

/// Distinct keys are as many as the places they stand at.
pub proof fn lemma_count(keys: Seq<Key>)
    requires
        distinct(keys),
    ensures
        keys.to_set().finite(),
        keys.to_set().len() == keys.len(),
        forall|k: Key| #[trigger] keys.to_set().contains(k) <==> holds(keys, k),
{
    assert(keys.no_duplicates());
    keys.unique_seq_to_set();
    vstd::seq_lib::seq_to_set_is_finite(keys);
}

/// A new key put last: it is held at the end, and every key held before is
/// held at its old place.
pub proof fn lemma_pushed(keys: Seq<Key>, k: Key)
    requires
        distinct(keys),
        !holds(keys, k),
    ensures
        distinct(keys.push(k)),
        position(keys.push(k), k) == keys.len(),
        forall|x: Key| #[trigger] holds(keys.push(k), x) <==> (x == k || holds(keys, x)),
        forall|x: Key| holds(keys, x) ==> #[trigger] position(keys.push(k), x) == position(keys, x),
{
    let more = keys.push(k);
    assert forall|i: int, j: int| 0 <= i < j < more.len() implies more[i] != more[j] by {
        if j == keys.len() {
            assert(keys[i] == more[i]);
        }
    }
    lemma_position_of(more, keys.len() as int);
    assert forall|x: Key| #[trigger] holds(more, x) <==> (x == k || holds(keys, x)) by {
        if holds(more, x) {
            let p = position(more, x);
            if p < keys.len() {
                assert(keys[p] == x);
            }
        }
        if holds(keys, x) {
            let p = position(keys, x);
            assert(more[p] == x);
        }
    }
    assert forall|x: Key| holds(keys, x) implies #[trigger] position(more, x) == position(
        keys,
        x,
    ) by {
        let p = position(keys, x);
        assert(more[p] == x);
        lemma_position_of(more, p);
    }
}

/// The key at place `i` taken out: it is held no more, and every other key
/// is held as before, one place lower where it stood behind `i`.
pub proof fn lemma_removed(keys: Seq<Key>, i: int)
    requires
        distinct(keys),
        0 <= i < keys.len(),
    ensures
        distinct(keys.remove(i)),
        forall|x: Key| #[trigger] holds(keys.remove(i), x) <==> (x != keys[i] && holds(keys, x)),
        forall|x: Key|
            holds(keys.remove(i), x) ==> position(keys, x) == if #[trigger] position(
                keys.remove(i),
                x,
            ) < i {
                position(keys.remove(i), x)
            } else {
                position(keys.remove(i), x) + 1
            },
{
    let less = keys.remove(i);
    assert forall|a: int, b: int| 0 <= a < b < less.len() implies less[a] != less[b] by {
        let a0 = if a < i { a } else { a + 1 };
        let b0 = if b < i { b } else { b + 1 };
        assert(less[a] == keys[a0] && less[b] == keys[b0]);
    }
    assert forall|x: Key| #[trigger] holds(less, x) <==> (x != keys[i] && holds(keys, x)) by {
        if holds(less, x) {
            let p = position(less, x);
            let q = if p < i { p } else { p + 1 };
            assert(keys[q] == x);
        }
        if x != keys[i] && holds(keys, x) {
            let p = position(keys, x);
            let q = if p < i { p } else { p - 1 };
            assert(less[q] == x);
        }
    }
    assert forall|x: Key| holds(less, x) implies position(keys, x) == if #[trigger] position(
        less,
        x,
    ) < i {
        position(less, x)
    } else {
        position(less, x) + 1
    } by {
        let p = position(less, x);
        let q = if p < i { p } else { p + 1 };
        assert(keys[q] == x);
        lemma_position_of(keys, q);
    }
}

/// The first `n + 1` keys are the first `n` and the key at place `n`.
pub proof fn lemma_holds_one_more(keys: Seq<Key>, n: int)
    requires
        0 <= n < keys.len(),
    ensures
        forall|k: Key| #[trigger]
            holds(keys.take(n + 1), k) <==> (k == keys[n] || holds(keys.take(n), k)),
{
    assert forall|k: Key| #[trigger] holds(keys.take(n + 1), k) <==> (k == keys[n] || holds(
        keys.take(n),
        k,
    )) by {
        if holds(keys.take(n + 1), k) {
            let p = position(keys.take(n + 1), k);
            if p < n {
                assert(keys.take(n)[p] == k);
            }
        }
        if holds(keys.take(n), k) {
            let p = position(keys.take(n), k);
            assert(keys.take(n + 1)[p] == k);
        }
        if k == keys[n] {
            assert(keys.take(n + 1)[n] == k);
        }
    }
}

} // verus!
