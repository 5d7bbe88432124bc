//! What a strategy keeps of merged entries, and what readers see of it.

use crate::compaction::strategy::{
    BottommostStrategy, CompactionStrategy, PassthroughStrategy, SnapshotAwareStrategy,
};
use crate::entry::Entry;
use crate::format::internal_key::{
    is_internal_key, key_parts, packed_part, sequence_part, type_byte_part, user_part,
    value_type_of,
};
use crate::merge::cmp::{bytes_before, internal_before, lemma_bytes_order, InternalKeyComparator};
use crate::merge::merged::ascending;
use crate::merge::source::{all_internal, user_keys_ascend};
use vstd::prelude::*;

verus! {

/// Where a strategy has come to.
pub struct Walk<T: CompactionStrategy> {
    /// The state of the strategy.
    pub state: T::State,
    /// The user key of the last entry.
    pub last: Option<Seq<u8>>,
    /// What has been kept.
    pub kept: Seq<Entry>,
}

/// What a strategy that starts in `state` makes of merged entries. Entries
/// whose key is too short to be an internal key are passed over.
pub open spec fn walk<T: CompactionStrategy>(state: T::State, merged: Seq<Entry>) -> Walk<T>
    decreases merged.len(),
{
    if merged.len() == 0 {
        Walk { state, last: None, kept: Seq::empty() }
    } else {
        let before = walk::<T>(state, merged.drop_last());
        let (key, value) = merged.last();
        if !is_internal_key(key) {
            before
        } else {
            let parts = key_parts(key);
            let first = before.last != Some(parts.user_key);
            Walk {
                state: T::after(before.state, parts, first),
                last: Some(parts.user_key),
                kept: if T::keeps(before.state, parts, first) {
                    before.kept.push((key, value))
                } else {
                    before.kept
                },
            }
        }
    }
}

/// The entries that a strategy that starts in `state` keeps.
pub open spec fn surviving<T: CompactionStrategy>(
    state: T::State,
    merged: Seq<Entry>,
) -> Seq<Entry> {
    walk::<T>(state, merged).kept
}

/// What a compaction keeps by default.
pub open spec fn bottommost(merged: Seq<Entry>) -> Seq<Entry> {
    surviving::<BottommostStrategy>((), merged)
}

/// The entries whose index `pick` names.
pub open spec fn picked(entries: Seq<Entry>, pick: spec_fn(int) -> bool) -> Seq<Entry>
    decreases entries.len(),
{
    if entries.len() == 0 {
        Seq::empty()
    } else {
        let before = picked(entries.drop_last(), pick);
        if pick(entries.len() - 1) {
            before.push(entries.last())
        } else {
            before
        }
    }
}

/// Whether entry `p` is the first of its user key.
pub open spec fn first_of_key(entries: Seq<Entry>, p: int) -> bool {
    forall|q: int|
        0 <= q < p ==> user_part(#[trigger] entries[q].0) != user_part(entries[p].0)
}

/// Whether entry `p` deletes its user key.
pub open spec fn is_tombstone_at(entries: Seq<Entry>, p: int) -> bool {
    is_tombstone_key(entries[p].0)
}

/// Whether the entry with this key deletes its user key.
pub open spec fn is_tombstone_key(key: Seq<u8>) -> bool {
    value_type_of(type_byte_part(key)).is_tombstone()
}

/// Whether entry `p` is the first of its user key that a reader at `seqno` can
/// see.
pub open spec fn first_visible(entries: Seq<Entry>, p: int, seqno: u64) -> bool {
    &&& sequence_part(entries[p].0) <= seqno
    &&& forall|q: int|
        0 <= q < p && user_part(#[trigger] entries[q].0) == user_part(entries[p].0)
            ==> sequence_part(entries[q].0) > seqno
}

proof fn lemma_picked_same(entries: Seq<Entry>, a: spec_fn(int) -> bool, b: spec_fn(int) -> bool)
    requires
        forall|p: int| 0 <= p < entries.len() ==> #[trigger] a(p) == b(p),
    ensures
        picked(entries, a) == picked(entries, b),
    decreases entries.len(),
{
    if entries.len() > 0 {
        lemma_picked_same(entries.drop_last(), a, b);
        assert(a(entries.len() - 1) == b(entries.len() - 1));
    }
}

/// The walk remembers the user key of the last entry.
pub proof fn lemma_walk_last<T: CompactionStrategy>(state: T::State, merged: Seq<Entry>)
    requires
        all_internal(merged),
    ensures
        walk::<T>(state, merged).last == if merged.len() == 0 {
            None
        } else {
            Some(user_part(merged.last().0))
        },
{
    if merged.len() > 0 {
        assert(is_internal_key(merged[merged.len() - 1].0));
    }
}

/// Where user keys ascend, an entry is the first of its key exactly if the one
/// in front of it has another.
proof fn lemma_first_of_key(merged: Seq<Entry>, p: int)
    requires
        user_keys_ascend(merged),
        0 <= p < merged.len(),
    ensures
        first_of_key(merged, p) == (p == 0 || user_part(merged[p - 1].0) != user_part(
            merged[p].0,
        )),
{
    if p > 0 && user_part(merged[p - 1].0) != user_part(merged[p].0) {
        assert forall|q: int| 0 <= q < p implies user_part(#[trigger] merged[q].0) != user_part(
            merged[p].0,
        ) by {
            let a = user_part(merged[q].0);
            let b = user_part(merged[p - 1].0);
            let c = user_part(merged[p].0);
            assert(!bytes_before(b, a));
            assert(!bytes_before(c, b));
            lemma_bytes_order(a, b, c);
            lemma_bytes_order(b, c, a);
        }
    }
}

proof fn lemma_prefix_sorted(merged: Seq<Entry>)
    requires
        merged.len() > 0,
        all_internal(merged),
        user_keys_ascend(merged),
    ensures
        all_internal(merged.drop_last()),
        user_keys_ascend(merged.drop_last()),
{
    let before = merged.drop_last();
    assert forall|i: int| 0 <= i < before.len() implies is_internal_key(#[trigger] before[i].0) by {
        assert(is_internal_key(merged[i].0));
    }
    assert forall|i: int, j: int| 0 <= i <= j < before.len() implies !bytes_before(
        user_part(#[trigger] before[j].0),
        user_part(#[trigger] before[i].0),
    ) by {
        assert(!bytes_before(user_part(merged[j].0), user_part(merged[i].0)));
    }
}

/// Whether an entry is the first of its key does not depend on later ones.
proof fn lemma_first_in_prefix(merged: Seq<Entry>, p: int)
    requires
        0 <= p < merged.len() - 1,
    ensures
        first_of_key(merged.drop_last(), p) == first_of_key(merged, p),
{
    let before = merged.drop_last();
    assert(before[p] == merged[p]);
    if first_of_key(before, p) {
        assert forall|q: int| 0 <= q < p implies user_part(#[trigger] merged[q].0) != user_part(
            merged[p].0,
        ) by {
            assert(before[q] == merged[q]);
        }
    }
    if first_of_key(merged, p) {
        assert forall|q: int| 0 <= q < p implies user_part(#[trigger] before[q].0) != user_part(
            before[p].0,
        ) by {
            assert(before[q] == merged[q]);
        }
    }
}

/// Nor does it whether it is the first that a reader can see.
proof fn lemma_visible_in_prefix(merged: Seq<Entry>, p: int, seqno: u64)
    requires
        0 <= p < merged.len() - 1,
    ensures
        first_visible(merged.drop_last(), p, seqno) == first_visible(merged, p, seqno),
{
    let before = merged.drop_last();
    assert(before[p] == merged[p]);
    if first_visible(before, p, seqno) {
        assert forall|q: int|
            0 <= q < p && user_part(#[trigger] merged[q].0) == user_part(
                merged[p].0,
            ) implies sequence_part(merged[q].0) > seqno by {
            assert(before[q] == merged[q]);
        }
    }
    if first_visible(merged, p, seqno) {
        assert forall|q: int|
            0 <= q < p && user_part(#[trigger] before[q].0) == user_part(
                before[p].0,
            ) implies sequence_part(before[q].0) > seqno by {
            assert(before[q] == merged[q]);
        }
    }
}

/// The entries that the default strategy is to keep.
pub open spec fn bottommost_pick(merged: Seq<Entry>) -> spec_fn(int) -> bool {
    |p: int| first_of_key(merged, p) && !is_tombstone_at(merged, p)
}

/// The default strategy keeps exactly the first version of each user key that
/// is no tombstone.
pub proof fn lemma_bottommost_picks(merged: Seq<Entry>)
    requires
        all_internal(merged),
        user_keys_ascend(merged),
    ensures
        bottommost(merged) == picked(merged, bottommost_pick(merged)),
    decreases merged.len(),
{
    if merged.len() > 0 {
        let before = merged.drop_last();
        let n = merged.len() - 1;
        lemma_prefix_sorted(merged);
        lemma_bottommost_picks(before);
        lemma_walk_last::<BottommostStrategy>((), before);
        lemma_first_of_key(merged, n);
        assert(is_internal_key(merged[n].0));
        assert forall|p: int| 0 <= p < before.len() implies #[trigger] bottommost_pick(before)(p)
            == bottommost_pick(merged)(p) by {
            lemma_first_in_prefix(merged, p);
        }
        lemma_picked_same(before, bottommost_pick(before), bottommost_pick(merged));
    }
}

/// The entries that a strategy for a snapshot is to keep.
pub open spec fn snapshot_pick(merged: Seq<Entry>, snapshot: u64) -> spec_fn(int) -> bool {
    |p: int| first_of_key(merged, p) || first_visible(merged, p, snapshot)
}

/// The strategy for a snapshot keeps exactly the first version of each user
/// key, and the first that the snapshot can see.
pub proof fn lemma_snapshot_picks(merged: Seq<Entry>, snapshot: u64)
    requires
        all_internal(merged),
        user_keys_ascend(merged),
    ensures
        surviving::<SnapshotAwareStrategy>((snapshot, false), merged) == picked(
            merged,
            snapshot_pick(merged, snapshot),
        ),
{
    lemma_snapshot_walk(merged, snapshot);
}

/// Whether the snapshot can see a version of the user key of the last entry.
spec fn last_key_seen(merged: Seq<Entry>, snapshot: u64) -> bool {
    exists|q: int|
        0 <= q < merged.len() && user_part(#[trigger] merged[q].0) == user_part(merged.last().0)
            && sequence_part(merged[q].0) <= snapshot
}

proof fn lemma_snapshot_walk(merged: Seq<Entry>, snapshot: u64)
    requires
        all_internal(merged),
        user_keys_ascend(merged),
    ensures
        ({
            let end = walk::<SnapshotAwareStrategy>((snapshot, false), merged);
            &&& end.kept == picked(merged, snapshot_pick(merged, snapshot))
            &&& end.state.0 == snapshot
            &&& merged.len() > 0 ==> end.state.1 == last_key_seen(merged, snapshot)
        }),
    decreases merged.len(),
{
    if merged.len() > 0 {
        let before = merged.drop_last();
        let n = merged.len() - 1;
        lemma_prefix_sorted(merged);
        lemma_snapshot_walk(before, snapshot);
        lemma_walk_last::<SnapshotAwareStrategy>((snapshot, false), before);
        lemma_first_of_key(merged, n);
        assert(is_internal_key(merged[n].0));
        assert forall|p: int| 0 <= p < before.len() implies #[trigger] snapshot_pick(
            before,
            snapshot,
        )(p) == snapshot_pick(merged, snapshot)(p) by {
            lemma_first_in_prefix(merged, p);
            lemma_visible_in_prefix(merged, p, snapshot);
        }
        lemma_picked_same(
            before,
            snapshot_pick(before, snapshot),
            snapshot_pick(merged, snapshot),
        );
        let seq = sequence_part(merged[n].0);
        let user = user_part(merged[n].0);
        let w = walk::<SnapshotAwareStrategy>((snapshot, false), before);
        let first = w.last != Some(user);
        assert(first == first_of_key(merged, n));
        if first {
            assert(last_key_seen(merged, snapshot) == (seq <= snapshot)) by {
                if seq <= snapshot {
                    assert(user_part(merged[n].0) == user_part(merged.last().0));
                }
                if last_key_seen(merged, snapshot) {
                    let q = choose|q: int|
                        0 <= q < merged.len() && user_part(#[trigger] merged[q].0) == user_part(
                            merged.last().0,
                        ) && sequence_part(merged[q].0) <= snapshot;
                    assert(q == n);
                }
            }
        } else {
            assert(user_part(before.last().0) == user);
            assert(last_key_seen(merged, snapshot) == (last_key_seen(before, snapshot) || seq
                <= snapshot)) by {
                if last_key_seen(before, snapshot) {
                    let q = choose|q: int|
                        0 <= q < before.len() && user_part(#[trigger] before[q].0) == user_part(
                            before.last().0,
                        ) && sequence_part(before[q].0) <= snapshot;
                    assert(user_part(merged[q].0) == user_part(merged.last().0));
                }
                if seq <= snapshot {
                    assert(user_part(merged[n].0) == user_part(merged.last().0));
                }
                if last_key_seen(merged, snapshot) {
                    let q = choose|q: int|
                        0 <= q < merged.len() && user_part(#[trigger] merged[q].0) == user_part(
                            merged.last().0,
                        ) && sequence_part(merged[q].0) <= snapshot;
                    if q < n {
                        assert(user_part(before[q].0) == user_part(before.last().0));
                    }
                }
            }
            assert(first_visible(merged, n, snapshot) == (seq <= snapshot && !last_key_seen(
                before,
                snapshot,
            ))) by {
                if last_key_seen(before, snapshot) {
                    let q = choose|q: int|
                        0 <= q < before.len() && user_part(#[trigger] before[q].0) == user_part(
                            before.last().0,
                        ) && sequence_part(before[q].0) <= snapshot;
                    assert(user_part(merged[q].0) == user);
                } else {
                    assert forall|q: int|
                        0 <= q < n && user_part(#[trigger] merged[q].0) == user implies
                        sequence_part(merged[q].0) > snapshot by {
                        assert(user_part(before[q].0) == user_part(before.last().0));
                    }
                }
            }
        }
        assert(snapshot_pick(merged, snapshot)(n) == (first || !w.state.1 && seq <= snapshot));
    }
}

/// A strategy that keeps everything keeps everything.
pub proof fn lemma_passthrough_keeps_all(merged: Seq<Entry>)
    requires
        all_internal(merged),
    ensures
        surviving::<PassthroughStrategy>((), merged) == merged,
    decreases merged.len(),
{
    if merged.len() > 0 {
        let before = merged.drop_last();
        assert forall|i: int| 0 <= i < before.len() implies is_internal_key(
            #[trigger] before[i].0,
        ) by {
            assert(is_internal_key(merged[i].0));
        }
        lemma_passthrough_keeps_all(before);
        assert(is_internal_key(merged[merged.len() - 1].0));
        assert(before.push(merged.last()) =~= merged);
    }
}

/// Whether a reader of `user_key` at `seqno` can see this entry.
pub open spec fn sees(entry: Entry, user_key: Seq<u8>, seqno: u64) -> bool {
    user_part(entry.0) == user_key && sequence_part(entry.0) <= seqno
}

/// What a reader of `user_key` at `seqno` finds: the first version that it can
/// see.
pub open spec fn lookup(entries: Seq<Entry>, user_key: Seq<u8>, seqno: u64) -> Option<Entry>
    decreases entries.len(),
{
    if entries.len() == 0 {
        None
    } else {
        match lookup(entries.drop_last(), user_key, seqno) {
            Some(entry) => Some(entry),
            None => if sees(entries.last(), user_key, seqno) {
                Some(entries.last())
            } else {
                None
            },
        }
    }
}

/// A lookup finds nothing exactly if there is nothing to see.
proof fn lemma_lookup_none(entries: Seq<Entry>, user_key: Seq<u8>, seqno: u64)
    ensures
        lookup(entries, user_key, seqno) is None <==> forall|q: int|
            0 <= q < entries.len() ==> !#[trigger] sees(entries[q], user_key, seqno),
    decreases entries.len(),
{
    if entries.len() > 0 {
        let before = entries.drop_last();
        let n = entries.len() - 1;
        lemma_lookup_none(before, user_key, seqno);
        if lookup(entries, user_key, seqno) is None {
            assert forall|q: int| 0 <= q < entries.len() implies !#[trigger] sees(
                entries[q],
                user_key,
                seqno,
            ) by {
                if q < n {
                    assert(!sees(before[q], user_key, seqno));
                }
            }
        } else if forall|q: int|
            0 <= q < entries.len() ==> !#[trigger] sees(entries[q], user_key, seqno) {
            assert forall|q: int| 0 <= q < before.len() implies !#[trigger] sees(
                before[q],
                user_key,
                seqno,
            ) by {
                assert(!sees(entries[q], user_key, seqno));
            }
            assert(!sees(entries[n], user_key, seqno));
        }
    }
}

/// A reader finds the same among picked entries, if the entry that it finds is
/// picked.
proof fn lemma_lookup_picked(
    entries: Seq<Entry>,
    pick: spec_fn(int) -> bool,
    user_key: Seq<u8>,
    seqno: u64,
)
    requires
        forall|p: int|
            0 <= p < entries.len() && sees(entries[p], user_key, seqno) && (forall|q: int|
                0 <= q < p ==> !#[trigger] sees(entries[q], user_key, seqno)) ==> #[trigger] pick(
                p,
            ),
    ensures
        lookup(picked(entries, pick), user_key, seqno) == lookup(entries, user_key, seqno),
    decreases entries.len(),
{
    if entries.len() > 0 {
        let before = entries.drop_last();
        let n = entries.len() - 1;
        assert forall|p: int|
            0 <= p < before.len() && sees(before[p], user_key, seqno) && (forall|q: int|
                0 <= q < p ==> !#[trigger] sees(before[q], user_key, seqno)) implies #[trigger] pick(
            p,
        ) by {
            assert forall|q: int| 0 <= q < p implies !#[trigger] sees(
                entries[q],
                user_key,
                seqno,
            ) by {
                assert(!sees(before[q], user_key, seqno));
            }
        }
        lemma_lookup_picked(before, pick, user_key, seqno);
        lemma_lookup_none(before, user_key, seqno);
        let kept = picked(before, pick);
        if lookup(before, user_key, seqno) is None && sees(entries[n], user_key, seqno) {
            assert forall|q: int| 0 <= q < n implies !#[trigger] sees(
                entries[q],
                user_key,
                seqno,
            ) by {
                assert(!sees(before[q], user_key, seqno));
            }
            assert(pick(n));
        }
        if pick(n) {
            assert(kept.push(entries.last()).drop_last() =~= kept);
        }
    }
}

/// A compaction for a snapshot hides nothing: readers at the snapshot find
/// what they found before, and so do readers of the newest versions.
pub proof fn lemma_snapshot_readers(merged: Seq<Entry>, snapshot: u64, user_key: Seq<u8>)
    requires
        all_internal(merged),
        user_keys_ascend(merged),
    ensures
        ({
            let kept = surviving::<SnapshotAwareStrategy>((snapshot, false), merged);
            &&& lookup(kept, user_key, snapshot) == lookup(merged, user_key, snapshot)
            &&& lookup(kept, user_key, u64::MAX) == lookup(merged, user_key, u64::MAX)
        }),
{
    let pick = snapshot_pick(merged, snapshot);
    lemma_snapshot_picks(merged, snapshot);
    assert forall|p: int|
        0 <= p < merged.len() && sees(merged[p], user_key, snapshot) && (forall|q: int|
            0 <= q < p ==> !#[trigger] sees(merged[q], user_key, snapshot)) implies #[trigger] pick(
        p,
    ) by {
        assert forall|q: int|
            0 <= q < p && user_part(#[trigger] merged[q].0) == user_part(merged[p].0) implies
            sequence_part(merged[q].0) > snapshot by {
            assert(!sees(merged[q], user_key, snapshot));
        }
    }
    lemma_lookup_picked(merged, pick, user_key, snapshot);
    assert forall|p: int|
        0 <= p < merged.len() && sees(merged[p], user_key, u64::MAX) && (forall|q: int|
            0 <= q < p ==> !#[trigger] sees(merged[q], user_key, u64::MAX)) implies #[trigger] pick(
        p,
    ) by {
        assert forall|q: int| 0 <= q < p implies user_part(#[trigger] merged[q].0) != user_part(
            merged[p].0,
        ) by {
            assert(!sees(merged[q], user_key, u64::MAX));
        }
    }
    lemma_lookup_picked(merged, pick, user_key, u64::MAX);
}

/// Entries in the order of internal keys have ascending user keys, and of the
/// versions of one user key the first is the newest.
pub proof fn lemma_first_is_newest(merged: Seq<Entry>)
    requires
        all_internal(merged),
        ascending::<InternalKeyComparator>(merged),
    ensures
        user_keys_ascend(merged),
        forall|p: int, q: int|
            0 <= p < merged.len() && 0 <= q < merged.len() && first_of_key(merged, p) && user_part(
                #[trigger] merged[q].0,
            ) == user_part(#[trigger] merged[p].0) ==> packed_part(merged[q].0) <= packed_part(
                merged[p].0,
            ),
{
    assert forall|i: int, j: int| 0 <= i <= j < merged.len() implies !bytes_before(
        user_part(#[trigger] merged[j].0),
        user_part(#[trigger] merged[i].0),
    ) by {
        lemma_bytes_order(user_part(merged[i].0), user_part(merged[j].0), user_part(merged[i].0));
        if i < j {
            assert(!internal_before(merged[j].0, merged[i].0));
        }
    }
    assert forall|p: int, q: int|
        0 <= p < merged.len() && 0 <= q < merged.len() && first_of_key(merged, p) && user_part(
            #[trigger] merged[q].0,
        ) == user_part(#[trigger] merged[p].0) implies packed_part(merged[q].0) <= packed_part(
        merged[p].0,
    ) by {
        if p < q {
            assert(!internal_before(merged[q].0, merged[p].0));
        } else if q < p {
            assert(user_part(merged[q].0) != user_part(merged[p].0));
        }
    }
}

/// What a reader of the newest versions takes for the value of `user_key`:
/// none where it was deleted or never written.
pub open spec fn live_value(entries: Seq<Entry>, user_key: Seq<u8>) -> Option<Seq<u8>> {
    match lookup(entries, user_key, u64::MAX) {
        None => None,
        Some(entry) => if is_tombstone_key(entry.0) {
            None
        } else {
            Some(entry.1)
        },
    }
}

/// The default compaction loses no value: readers of the newest versions find
/// every key as it was, deleted keys deleted.
pub proof fn lemma_bottommost_readers(merged: Seq<Entry>, user_key: Seq<u8>)
    requires
        all_internal(merged),
        user_keys_ascend(merged),
    ensures
        live_value(bottommost(merged), user_key) == live_value(merged, user_key),
{
    lemma_bottommost_picks(merged);
    lemma_live_picked(merged, user_key, bottommost_pick(merged));
}

proof fn lemma_live_picked(merged: Seq<Entry>, user_key: Seq<u8>, pick: spec_fn(int) -> bool)
    requires
        forall|p: int|
            0 <= p < merged.len() ==> #[trigger] pick(p) == (first_of_key(merged, p)
                && !is_tombstone_at(merged, p)),
    ensures
        lookup(picked(merged, pick), user_key, u64::MAX) == match lookup(
            merged,
            user_key,
            u64::MAX,
        ) {
            Some(entry) if !is_tombstone_key(entry.0) => Some(entry),
            _ => None,
        },
    decreases merged.len(),
{
    if merged.len() > 0 {
        let before = merged.drop_last();
        let n = merged.len() - 1;
        assert forall|p: int| 0 <= p < before.len() implies #[trigger] pick(p) == (first_of_key(
            before,
            p,
        ) && !is_tombstone_at(before, p)) by {
            lemma_first_in_prefix(merged, p);
        }
        lemma_live_picked(before, user_key, pick);
        lemma_lookup_none(before, user_key, u64::MAX);
        let kept = picked(before, pick);
        if pick(n) {
            assert(kept.push(merged.last()).drop_last() =~= kept);
        }
        let found = lookup(before, user_key, u64::MAX);
        if user_part(merged[n].0) == user_key {
            if found is None {
                assert forall|q: int| 0 <= q < n implies user_part(#[trigger] merged[q].0)
                    != user_key by {
                    assert(!sees(before[q], user_key, u64::MAX));
                }
                assert(first_of_key(merged, n));
                assert(pick(n) == !is_tombstone_at(merged, n));
            } else {
                // An earlier version exists, so this one is not kept.
                assert(!pick(n)) by {
                    assert(exists|q: int|
                        0 <= q < before.len() && #[trigger] sees(before[q], user_key, u64::MAX));
                    let q = choose|q: int|
                        0 <= q < before.len() && #[trigger] sees(before[q], user_key, u64::MAX);
                    assert(user_part(merged[q].0) == user_part(merged[n].0));
                }
            }
        }
    }
}

/// A strategy adds nothing: what it keeps was there before.
pub proof fn lemma_survivor_origin<T: CompactionStrategy>(
    state: T::State,
    merged: Seq<Entry>,
    p: int,
) -> (q: int)
    requires
        0 <= p < surviving::<T>(state, merged).len(),
    ensures
        0 <= q < merged.len(),
        merged[q] == surviving::<T>(state, merged)[p],
    decreases merged.len(),
{
    let before = merged.drop_last();
    if p < surviving::<T>(state, before).len() {
        lemma_survivor_origin::<T>(state, before, p)
    } else {
        assert(merged.last() == (merged.last().0, merged.last().1));
        merged.len() - 1
    }
}

/// Compacting what has been compacted changes nothing.
pub proof fn lemma_compacting_again(merged: Seq<Entry>)
    requires
        all_internal(merged),
        user_keys_ascend(merged),
    ensures
        bottommost(bottommost(merged)) == bottommost(merged),
    decreases merged.len(),
{
    if merged.len() > 0 {
        let before = merged.drop_last();
        let n = before.len() as int;
        lemma_prefix_sorted(merged);
        lemma_compacting_again(before);
        let kept = bottommost(before);
        let entry = merged.last();
        assert(entry == (entry.0, entry.1));
        if bottommost(merged) != kept {
            assert(kept.push(entry).drop_last() =~= kept);
            assert forall|i: int| 0 <= i < kept.len() implies is_internal_key(
                #[trigger] kept[i].0,
            ) by {
                let q = lemma_survivor_origin::<BottommostStrategy>((), before, i);
                assert(is_internal_key(before[q].0));
            }
            lemma_walk_last::<BottommostStrategy>((), kept);
            lemma_walk_last::<BottommostStrategy>((), before);
            lemma_first_of_key(merged, n);
            if kept.len() > 0 {
                let q = lemma_survivor_origin::<BottommostStrategy>((), before, kept.len() - 1);
                assert(user_part(merged[q].0) != user_part(merged[n].0));
            }
        }
    }
}

} // verus!
