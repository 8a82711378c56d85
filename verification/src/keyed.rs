//! Lists of entries keyed by text.
//!
//! Where each key is to occur once and the order of first use is to be kept,
//! entries are held in a sequence of pairs and found by [`slot`].

use vstd::prelude::*;

verus! {

/// The index of the first entry with the given key.
pub open spec fn slot<V>(list: Seq<(Seq<char>, V)>, key: Seq<char>) -> Option<int>
    decreases list.len(),
{
    if list.len() == 0 {
        None
    } else {
        match slot(list.drop_last(), key) {
            Some(i) => Some(i),
            None => if list.last().0 == key {
                Some(list.len() - 1)
            } else {
                None
            },
        }
    }
}

/// The entry for a key that a prefix holds is the entry that the whole holds.
pub proof fn lemma_slot_prefix<V>(list: Seq<(Seq<char>, V)>, key: Seq<char>, n: int)
    requires
        0 <= n <= list.len(),
        slot(list.take(n), key) is Some,
    ensures
        slot(list, key) == slot(list.take(n), key),
    decreases list.len() - n,
{
    if n < list.len() {
        assert(list.take(n + 1).drop_last() == list.take(n));
        lemma_slot_prefix(list, key, n + 1);
    } else {
        assert(list.take(n) == list);
    }
}

/// `slot` finds the first entry with the key, and `None` only where no entry
/// has it.
pub proof fn lemma_slot<V>(list: Seq<(Seq<char>, V)>, key: Seq<char>)
    ensures
        match slot(list, key) {
            Some(i) => 0 <= i < list.len() && list[i].0 == key && forall|j: int|
                0 <= j < i ==> list[j].0 != key,
            None => forall|j: int| 0 <= j < list.len() ==> list[j].0 != key,
        },
    decreases list.len(),
{
    if list.len() > 0 {
        lemma_slot(list.drop_last(), key);
        assert forall|j: int| 0 <= j < list.len() - 1 implies list.drop_last()[j] == list[j] by {}
    }
}

} // verus!
