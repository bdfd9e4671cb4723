//! Finding a key in a list of keys.
//!
//! The tables of the reports are lists in order of first appearance, each
//! row under a key of text. This module says where a key stands in such a
//! list, and what follows from it.

use vstd::prelude::*;

verus! {

/// The first index at which `key` stands in `keys`, or the length of `keys`
/// where it stands nowhere.
pub open spec fn position(keys: Seq<Seq<char>>, key: Seq<char>) -> int
    decreases keys.len(),
{
    if keys.len() == 0 {
        0
    } else if keys[0] == key {
        0
    } else {
        1 + position(keys.drop_first(), key)
    }
}

/// Whether no key stands twice in the list.
pub open spec fn distinct(keys: Seq<Seq<char>>) -> bool {
    forall|i: int, j: int| 0 <= i < j < keys.len() ==> keys[i] != keys[j]
}

/// What `position` finds: the key at that index and at none before it, or
/// the key nowhere.
pub proof fn lemma_position(keys: Seq<Seq<char>>, key: Seq<char>)
    ensures
        0 <= position(keys, key) <= keys.len(),
        forall|j: int| 0 <= j < position(keys, key) ==> keys[j] != key,
        position(keys, key) < keys.len() ==> keys[position(keys, key)] == key,
    decreases keys.len(),
{
    if keys.len() > 0 && keys[0] != key {
        let rest = keys.drop_first();
        lemma_position(rest, key);
        assert forall|j: int| 0 <= j < position(keys, key) implies keys[j] != key by {
            if j > 0 {
                assert(rest[j - 1] == keys[j]);
            }
        }
        if position(keys, key) < keys.len() {
            assert(rest[position(rest, key)] == keys[position(keys, key)]);
        }
    }
}

/// The first index that holds the key is its position.
pub proof fn lemma_position_is(keys: Seq<Seq<char>>, key: Seq<char>, at: int)
    requires
        0 <= at <= keys.len(),
        forall|j: int| 0 <= j < at ==> keys[j] != key,
        at < keys.len() ==> keys[at] == key,
    ensures
        position(keys, key) == at,
{
    lemma_position(keys, key);
}

/// Appending a key leaves every position inside the list where it was, and
/// gives the appended key, if it is new, the place at the end.
pub proof fn lemma_position_push(keys: Seq<Seq<char>>, added: Seq<char>, key: Seq<char>)
    ensures
        position(keys, key) < keys.len() ==> position(keys.push(added), key) == position(
            keys,
            key,
        ),
        position(keys, key) == keys.len() && added == key ==> position(keys.push(added), key)
            == keys.len(),
        position(keys, key) == keys.len() && added != key ==> position(keys.push(added), key)
            == keys.len() + 1,
{
    lemma_position(keys, key);
    let grown = keys.push(added);
    let at = position(keys, key);
    if at < keys.len() {
        lemma_position_is(grown, key, at);
    } else if added == key {
        lemma_position_is(grown, key, keys.len() as int);
    } else {
        lemma_position_is(grown, key, keys.len() as int + 1);
    }
}

} // verus!
