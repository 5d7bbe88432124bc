//! Sorting entries by their keys.

use crate::entry::{copy_bytes, entries_of, Entry};
use crate::merge::cmp::KeyComparator;
use crate::merge::merged::ascending;
use crate::merge::merger::comes_before;
use vstd::prelude::*;

verus! {

/// Whether every key can be compared.
pub open spec fn keys_comparable<C: KeyComparator>(entries: Seq<Entry>) -> bool {
    forall|i: int| 0 <= i < entries.len() ==> C::comparable(#[trigger] entries[i].0)
}

/// How many of the sorted `entries` stay in front of one with `key`: all up to
/// the last that is not greater.
pub open spec fn place_of<C: KeyComparator>(entries: Seq<Entry>, key: Seq<u8>) -> int
    decreases entries.len(),
{
    if entries.len() == 0 {
        0
    } else if C::before(key, entries.last().0) {
        place_of::<C>(entries.drop_last(), key)
    } else {
        entries.len() as int
    }
}

/// `entries` in ascending order of their keys; equal keys keep their order.
pub open spec fn sorted_by<C: KeyComparator>(entries: Seq<Entry>) -> Seq<Entry>
    decreases entries.len(),
{
    if entries.len() == 0 {
        Seq::empty()
    } else {
        let before = sorted_by::<C>(entries.drop_last());
        before.insert(place_of::<C>(before, entries.last().0), entries.last())
    }
}

proof fn lemma_place_of<C: KeyComparator>(entries: Seq<Entry>, key: Seq<u8>)
    requires
        keys_comparable::<C>(entries),
        C::comparable(key),
        ascending::<C>(entries),
    ensures
        0 <= place_of::<C>(entries, key) <= entries.len(),
        forall|i: int|
            place_of::<C>(entries, key) <= i < entries.len() ==> C::before(
                key,
                #[trigger] entries[i].0,
            ),
        forall|i: int|
            0 <= i < place_of::<C>(entries, key) ==> !C::before(key, #[trigger] entries[i].0),
    decreases entries.len(),
{
    if entries.len() > 0 {
        let n = entries.len() - 1;
        let last = entries[n].0;
        let front = entries.drop_last();
        assert(C::comparable(last));
        if C::before(key, last) {
            assert forall|i: int| 0 <= i < front.len() implies C::comparable(
                #[trigger] front[i].0,
            ) by {
                assert(C::comparable(entries[i].0));
            }
            assert forall|a: int, b: int| 0 <= a < b < front.len() implies !C::before(
                #[trigger] front[b].0,
                #[trigger] front[a].0,
            ) by {
                assert(!C::before(entries[b].0, entries[a].0));
            }
            lemma_place_of::<C>(front, key);
            assert forall|i: int| place_of::<C>(entries, key) <= i < entries.len() implies C::before(
                key,
                #[trigger] entries[i].0,
            ) by {
                if i < n {
                    assert(front[i] == entries[i]);
                }
            }
            assert forall|i: int| 0 <= i < place_of::<C>(entries, key) implies !C::before(
                key,
                #[trigger] entries[i].0,
            ) by {
                assert(front[i] == entries[i]);
            }
        } else {
            assert forall|i: int| 0 <= i < entries.len() implies !C::before(
                key,
                #[trigger] entries[i].0,
            ) by {
                if i < n {
                    assert(C::comparable(entries[i].0));
                    assert(!C::before(last, entries[i].0));
                    C::order_laws(entries[i].0, last, key);
                }
            }
        }
    }
}

/// Sorting puts keys in ascending order, and neither drops nor adds an entry.
pub proof fn lemma_sorted_by<C: KeyComparator>(entries: Seq<Entry>)
    requires
        keys_comparable::<C>(entries),
    ensures
        ascending::<C>(sorted_by::<C>(entries)),
        keys_comparable::<C>(sorted_by::<C>(entries)),
        sorted_by::<C>(entries).to_multiset() == entries.to_multiset(),
        sorted_by::<C>(entries).len() == entries.len(),
    decreases entries.len(),
{
    if entries.len() == 0 {
        assert(sorted_by::<C>(entries) =~= entries);
    } else {
        let front = entries.drop_last();
        let last = entries.last();
        let rest = sorted_by::<C>(front);
        let at = place_of::<C>(rest, last.0);
        assert forall|i: int| 0 <= i < front.len() implies C::comparable(
            #[trigger] front[i].0,
        ) by {
            assert(C::comparable(entries[i].0));
        }
        assert(C::comparable(entries[entries.len() - 1].0));
        lemma_sorted_by::<C>(front);
        lemma_place_of::<C>(rest, last.0);
        let sorted = rest.insert(at, last);
        assert forall|i: int| 0 <= i < sorted.len() implies C::comparable(
            #[trigger] sorted[i].0,
        ) by {
            if i != at {
                assert(C::comparable(rest[if i < at { i } else { i - 1 }].0));
            }
        }
        assert forall|i: int, j: int| 0 <= i < j < sorted.len() implies !C::before(
            #[trigger] sorted[j].0,
            #[trigger] sorted[i].0,
        ) by {
            let a = if i < at { i } else { i - 1 };
            let b = if j < at { j } else { j - 1 };
            if i == at {
                assert(C::before(last.0, rest[b].0));
                assert(C::comparable(rest[b].0));
                C::order_laws(last.0, rest[b].0, last.0);
            } else if j == at {
                assert(!C::before(last.0, rest[a].0));
            } else {
                assert(!C::before(rest[b].0, rest[a].0));
            }
        }
        assert(entries =~= front.push(last));
        vstd::seq_lib::to_multiset_build(front, last);
        vstd::seq_lib::to_multiset_insert(rest, at, last);
    }
}

/// Puts an entry where it belongs among sorted ones.
pub fn insert_sorted<C: KeyComparator>(
    entries: &mut Vec<(Vec<u8>, Vec<u8>)>,
    key: &[u8],
    value: Vec<u8>,
)
    requires
        keys_comparable::<C>(entries_of(old(entries)@)),
        C::comparable(key@),
    ensures
        entries_of(final(entries)@) == entries_of(old(entries)@).insert(
            place_of::<C>(entries_of(old(entries)@), key@),
            (key@, value@),
        ),
{
    let ghost before = entries_of(entries@);
    let mut at: usize = entries.len();
    assert(before.take(at as int) =~= before);
    assert(forall|i: int| 0 <= i < before.len() ==> (#[trigger] entries@[i]).0@ == before[i].0);
    while at > 0 && comes_before::<C>(key, entries[at - 1].0.as_slice())
        invariant
            at <= entries@.len(),
            before == entries_of(entries@),
            keys_comparable::<C>(before),
            C::comparable(key@),
            forall|i: int|
                0 <= i < before.len() ==> (#[trigger] entries@[i]).0@ == before[i].0,
            place_of::<C>(before, key@) == place_of::<C>(before.take(at as int), key@),
        decreases at,
    {
        assert(before.take(at as int).drop_last() =~= before.take(at - 1));
        at = at - 1;
    }
    assert(at > 0 ==> before.take(at as int).last().0 == entries@[at - 1].0@);
    entries.insert(at, (copy_bytes(key), value));
    assert(entries_of(entries@) =~= before.insert(at as int, (key@, value@)));
}

} // verus!
