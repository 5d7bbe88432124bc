//! What a compaction keeps, by the bytes of the keys.

use crate::compaction::laws::{blocks_countable, lemma_compaction_reads_back};
use crate::compaction::shard::{
    boundaries_sorted, contents_of, inputs_sorted, keys_of, largest, shardable,
};
use crate::compaction::strategy::{
    decision, BottommostStrategy, CompactionStrategy, KeepDecision, PassthroughStrategy,
    SnapshotAwareStrategy,
};
use crate::compaction::walk::{
    bottommost, bottommost_pick, first_of_key, first_visible, lemma_bottommost_picks,
    lemma_first_is_newest, lemma_snapshot_picks, picked, snapshot_pick, surviving, walk,
};
use crate::compaction::{compactable, compacts_to, in_order};
use crate::entry::{
    entries_of, flat, key_bytes, total_weight, value_bytes, visit_all, Entry, EntryVisitor,
};
use crate::error::FormatError;
use crate::format::block_builder::lengths_fit;
use crate::format::internal_key::{
    is_internal_key, packed_part, sequence_part, user_part, KeyParts, ValueType,
};
use crate::format::laws::{lemma_key_bytes, lemma_type_bytes};
use crate::format::sst_builder::{block_groups, table_of, written_entries, TableOptions};
use crate::fuzzer::{compactor_output, fit_table, is_decodable, lists_of, sorted_pairs};
use crate::generate::KeyDraw;
use crate::merge::cmp::{bytes_before, internal_before, InternalKeyComparator};
use crate::merge::laws::lemma_merge_interleaves;
use crate::merge::merged::{
    all_ascending, all_comparable, is_merge, lemma_merge_ascends, mergeable,
};
use crate::merge::merger::inputs_of;
use crate::merge::source::{
    all_internal, fits_arena, user_keys_ascend, ArenaSource, MergeSource,
};
use crate::merge::tree::{lemma_tournament_merge, tournament_merge};
use crate::oracle::{all_in_order, user_entries};
use crate::round_trip::{lemma_table_round_trip, readable, LEAST_BLOCK_WEIGHT};
use crate::sst::table_entries;
use vstd::prelude::*;

verus! {

/// The places of picked entries, in order.
proof fn lemma_picked_places(entries: Seq<Entry>, pick: spec_fn(int) -> bool) -> (from: Seq<int>)
    ensures
        from.len() == picked(entries, pick).len(),
        forall|j: int|
            0 <= j < from.len() ==> 0 <= #[trigger] from[j] < entries.len() && picked(
                entries,
                pick,
            )[j] == entries[from[j]],
        forall|i: int, j: int| 0 <= i < j < from.len() ==> #[trigger] from[i] < #[trigger] from[j],
        forall|p: int| 0 <= p < entries.len() ==> (#[trigger] from.contains(p) <==> pick(p)),
    decreases entries.len(),
{
    if entries.len() == 0 {
        Seq::empty()
    } else {
        let n = entries.len() - 1;
        let before = lemma_picked_places(entries.drop_last(), pick);
        let from = if pick(n) { before.push(n) } else { before };
        assert forall|p: int| 0 <= p < entries.len() implies (#[trigger] from.contains(p) <==> pick(
            p,
        )) by {
            if p < n {
                assert(before.contains(p) <==> pick(p));
                if before.contains(p) {
                    let j = choose|j: int| 0 <= j < before.len() && before[j] == p;
                    assert(from[j] == p);
                }
                if from.contains(p) {
                    let j = choose|j: int| 0 <= j < from.len() && from[j] == p;
                    assert(before[j] == p);
                }
            } else if pick(n) {
                assert(from[before.len() as int] == n);
            } else if from.contains(p) {
                let j = choose|j: int| 0 <= j < from.len() && from[j] == p;
                assert(before[j] < n);
            }
        }
        from
    }
}

/// Whether two keys have the same bytes but for the last eight.
proof fn lemma_same_user_key(a: Seq<u8>, b: Seq<u8>)
    requires
        a.len() >= 8,
        b.len() >= 8,
    ensures
        user_part(a) == user_part(b) <==> a.take(a.len() - 8) == b.take(b.len() - 8),
{
    lemma_key_bytes(a);
    lemma_key_bytes(b);
    assert(user_part(a) =~= a.take(a.len() - 8));
    assert(user_part(b) =~= b.take(b.len() - 8));
}

/// What the default compaction keeps of merged entries, in order: an entry is
/// kept exactly if no entry in front of it has the same user key, which is all
/// but the last eight bytes of a key, and the byte that follows it, the type, is
/// neither 0x00 nor 0x07.
pub proof fn lemma_default_keeps(merged: Seq<Entry>) -> (from: Seq<int>)
    requires
        all_internal(merged),
        user_keys_ascend(merged),
    ensures
        from.len() == bottommost(merged).len(),
        forall|j: int|
            0 <= j < from.len() ==> 0 <= #[trigger] from[j] < merged.len() && bottommost(merged)[j]
                == merged[from[j]],
        forall|i: int, j: int| 0 <= i < j < from.len() ==> #[trigger] from[i] < #[trigger] from[j],
        forall|p: int|
            0 <= p < merged.len() ==> (#[trigger] from.contains(p) <==> {
                let key = merged[p].0;
                let n = key.len() - 8;
                &&& forall|q: int|
                    0 <= q < p ==> (#[trigger] merged[q]).0.take(merged[q].0.len() - 8)
                        != key.take(n)
                &&& key[n] != 0x00
                &&& key[n] != 0x07
            }),
{
    lemma_bottommost_picks(merged);
    let pick = bottommost_pick(merged);
    let from = lemma_picked_places(merged, pick);
    assert forall|p: int| 0 <= p < merged.len() implies (#[trigger] from.contains(p) <==> {
        let key = merged[p].0;
        let n = key.len() - 8;
        &&& forall|q: int|
            0 <= q < p ==> (#[trigger] merged[q]).0.take(merged[q].0.len() - 8) != key.take(n)
        &&& key[n] != 0x00
        &&& key[n] != 0x07
    }) by {
        assert(is_internal_key(merged[p].0));
        lemma_key_bytes(merged[p].0);
        lemma_type_bytes(merged[p].0);
        lemma_first_by_bytes(merged, p);
    }
    from
}

/// Being the first of a user key, by bytes.
proof fn lemma_first_by_bytes(merged: Seq<Entry>, p: int)
    requires
        all_internal(merged),
        0 <= p < merged.len(),
    ensures
        first_of_key(merged, p) <==> forall|q: int|
            0 <= q < p ==> (#[trigger] merged[q]).0.take(merged[q].0.len() - 8)
                != merged[p].0.take(merged[p].0.len() - 8),
{
    assert(is_internal_key(merged[p].0));
    lemma_key_bytes(merged[p].0);
    assert forall|q: int| 0 <= q < p implies (user_part((#[trigger] merged[q]).0) == user_part(
        merged[p].0,
    ) <==> merged[q].0.take(merged[q].0.len() - 8) == merged[p].0.take(merged[p].0.len() - 8)) by {
        assert(is_internal_key(merged[q].0));
        lemma_key_bytes(merged[q].0);
        lemma_same_user_key(merged[q].0, merged[p].0);
    }
    if first_of_key(merged, p) {
        assert forall|q: int| 0 <= q < p implies (#[trigger] merged[q]).0.take(
            merged[q].0.len() - 8,
        ) != merged[p].0.take(merged[p].0.len() - 8) by {
            assert(user_part(merged[q].0) != user_part(merged[p].0));
        }
    }
}

/// What a compaction for a snapshot keeps of merged entries, in order: an entry
/// is kept exactly if no entry in front of it has the same user key, or if the
/// snapshot is not older than it, but older than every entry of the same user
/// key in front of it.
pub proof fn lemma_snapshot_keeps(merged: Seq<Entry>, snapshot: u64) -> (from: Seq<int>)
    requires
        all_internal(merged),
        user_keys_ascend(merged),
    ensures
        ({
            let kept = surviving::<SnapshotAwareStrategy>((snapshot, false), merged);
            &&& from.len() == kept.len()
            &&& forall|j: int|
                0 <= j < from.len() ==> 0 <= #[trigger] from[j] < merged.len() && kept[j]
                    == merged[from[j]]
        }),
        forall|i: int, j: int| 0 <= i < j < from.len() ==> #[trigger] from[i] < #[trigger] from[j],
        forall|p: int|
            0 <= p < merged.len() ==> (#[trigger] from.contains(p) <==> {
                let user_key = merged[p].0.take(merged[p].0.len() - 8);
                ||| forall|q: int|
                    0 <= q < p ==> (#[trigger] merged[q]).0.take(merged[q].0.len() - 8)
                        != user_key
                ||| sequence_part(merged[p].0) <= snapshot && forall|q: int|
                    0 <= q < p && (#[trigger] merged[q]).0.take(merged[q].0.len() - 8)
                        == user_key ==> sequence_part(merged[q].0) > snapshot
            }),
{
    lemma_snapshot_picks(merged, snapshot);
    let pick = snapshot_pick(merged, snapshot);
    let from = lemma_picked_places(merged, pick);
    assert forall|p: int| 0 <= p < merged.len() implies (#[trigger] from.contains(p) <==> {
        let user_key = merged[p].0.take(merged[p].0.len() - 8);
        ||| forall|q: int|
            0 <= q < p ==> (#[trigger] merged[q]).0.take(merged[q].0.len() - 8) != user_key
        ||| sequence_part(merged[p].0) <= snapshot && forall|q: int|
            0 <= q < p && (#[trigger] merged[q]).0.take(merged[q].0.len() - 8) == user_key
                ==> sequence_part(merged[q].0) > snapshot
    }) by {
        lemma_first_by_bytes(merged, p);
        lemma_visible_by_bytes(merged, p, snapshot);
    }
    from
}

/// Being the first of a user key that a snapshot can see, by bytes.
proof fn lemma_visible_by_bytes(merged: Seq<Entry>, p: int, snapshot: u64)
    requires
        all_internal(merged),
        0 <= p < merged.len(),
    ensures
        first_visible(merged, p, snapshot) <==> sequence_part(merged[p].0) <= snapshot && forall|
            q: int,
        |
            0 <= q < p && (#[trigger] merged[q]).0.take(merged[q].0.len() - 8)
                == merged[p].0.take(merged[p].0.len() - 8) ==> sequence_part(merged[q].0)
                > snapshot,
{
    assert(is_internal_key(merged[p].0));
    lemma_key_bytes(merged[p].0);
    assert forall|q: int| 0 <= q < p implies (user_part((#[trigger] merged[q]).0) == user_part(
        merged[p].0,
    ) <==> merged[q].0.take(merged[q].0.len() - 8) == merged[p].0.take(merged[p].0.len() - 8)) by {
        assert(is_internal_key(merged[q].0));
        lemma_key_bytes(merged[q].0);
        lemma_same_user_key(merged[q].0, merged[p].0);
    }
    if first_visible(merged, p, snapshot) {
        assert forall|q: int|
            0 <= q < p && (#[trigger] merged[q]).0.take(merged[q].0.len() - 8)
                == merged[p].0.take(merged[p].0.len() - 8) implies sequence_part(merged[q].0)
            > snapshot by {
            assert(user_part(merged[q].0) == user_part(merged[p].0));
        }
    }
}

/// A compaction by the bytes of the keys, from the sources to the table: of an
/// entry of some input whose last eight bytes are a larger number than those of
/// every other entry with the same user key, the table holds the entry as it is
/// and nothing else of that user key, unless its type byte is 0x00 or 0x07; then
/// the table holds nothing of that user key.
#[verifier::rlimit(50)]
pub proof fn lemma_newest_version_decides(
    inputs: Seq<Seq<Entry>>,
    opts: TableOptions,
    file: Seq<u8>,
    i: int,
    k: int,
)
    requires
        all_comparable::<InternalKeyComparator>(inputs),
        all_ascending::<InternalKeyComparator>(inputs),
        forall|a: int| 0 <= a < inputs.len() ==> lengths_fit(#[trigger] inputs[a]),
        opts.external_sst_global_seqno is None,
        compacts_to::<BottommostStrategy>((), inputs, opts, file, ()),
        blocks_countable(inputs, opts),
        file.len() <= usize::MAX,
        0 <= i < inputs.len(),
        0 <= k < inputs[i].len(),
        forall|a: int, b: int|
            0 <= a < inputs.len() && 0 <= b < inputs[a].len() && (a != i || b != k) && (
            #[trigger] inputs[a][b]).0.take(inputs[a][b].0.len() - 8) == inputs[i][k].0.take(
                inputs[i][k].0.len() - 8,
            ) ==> packed_part(inputs[a][b].0) < packed_part(inputs[i][k].0),
    ensures
        ({
            let (key, value) = inputs[i][k];
            let n = key.len() - 8;
            let found = table_entries(file).0;
            &&& table_entries(file).1 is None
            &&& key[n] != 0x00 && key[n] != 0x07 ==> found.contains((key, value))
            &&& forall|j: int|
                0 <= j < found.len() && (#[trigger] found[j]).0.take(found[j].0.len() - 8)
                    == key.take(n) ==> found[j] == (key, value) && key[n] != 0x00 && key[n]
                    != 0x07
        }),
{
    let merged = in_order(inputs);
    let (key, value) = inputs[i][k];
    let n = key.len() - 8;
    lemma_tournament_merge::<InternalKeyComparator>(inputs);
    lemma_compaction_reads_back(inputs, opts, file);
    lemma_merge_ascends::<InternalKeyComparator>(inputs, merged);
    assert(all_internal(merged));
    lemma_first_is_newest(merged);
    let places = lemma_merge_interleaves::<InternalKeyComparator>(inputs, merged);
    let from = lemma_default_keeps(merged);
    let found = table_entries(file).0;
    assert(found == bottommost(merged));
    assert(places.contains((i, k)));
    let p = choose|p: int| 0 <= p < places.len() && places[p] == (i, k);
    assert(merged[p] == (key, value));
    assert(is_internal_key(merged[p].0));
    assert forall|q: int|
        0 <= q < merged.len() && q != p && (#[trigger] merged[q]).0.take(merged[q].0.len() - 8)
            == key.take(n) implies q > p by {
        let at = places[q];
        assert(merged[q] == inputs[at.0][at.1]);
        if at == (i, k) {
            if q < p {
                assert(places[q].1 < places[p].1);
            } else {
                assert(places[p].1 < places[q].1);
            }
        }
        assert(packed_part(merged[q].0) < packed_part(key));
        assert(is_internal_key(merged[q].0));
        lemma_key_bytes(key);
        lemma_key_bytes(merged[q].0);
        lemma_same_user_key(merged[q].0, key);
        if q < p {
            assert(!internal_before(merged[p].0, merged[q].0));
        }
    }
    assert forall|q: int| 0 <= q < p implies (#[trigger] merged[q]).0.take(merged[q].0.len() - 8)
        != merged[p].0.take(merged[p].0.len() - 8) by {}
    if key[n] != 0x00 && key[n] != 0x07 {
        assert(from.contains(p));
        let j = choose|j: int| 0 <= j < from.len() && from[j] == p;
        assert(found[j] == (key, value));
    }
    assert forall|j: int|
        0 <= j < found.len() && (#[trigger] found[j]).0.take(found[j].0.len() - 8)
            == key.take(n) implies found[j] == (key, value) && key[n] != 0x00 && key[n] != 0x07 by {
        let q = from[j];
        assert(found[j] == merged[q]);
        assert(from.contains(q));
        if q != p {
            assert(q > p);
            assert(merged[p].0.take(merged[p].0.len() - 8) != merged[q].0.take(
                merged[q].0.len() - 8,
            ));
        }
    }
}

/// A table holds nothing that was not in an input.
pub proof fn lemma_nothing_invented(
    inputs: Seq<Seq<Entry>>,
    opts: TableOptions,
    file: Seq<u8>,
    j: int,
) -> (at: (int, int))
    requires
        all_comparable::<InternalKeyComparator>(inputs),
        all_ascending::<InternalKeyComparator>(inputs),
        forall|a: int| 0 <= a < inputs.len() ==> lengths_fit(#[trigger] inputs[a]),
        opts.external_sst_global_seqno is None,
        compacts_to::<BottommostStrategy>((), inputs, opts, file, ()),
        blocks_countable(inputs, opts),
        file.len() <= usize::MAX,
        0 <= j < table_entries(file).0.len(),
    ensures
        0 <= at.0 < inputs.len(),
        0 <= at.1 < inputs[at.0].len(),
        table_entries(file).0[j] == inputs[at.0][at.1],
{
    let merged = in_order(inputs);
    lemma_tournament_merge::<InternalKeyComparator>(inputs);
    lemma_compaction_reads_back(inputs, opts, file);
    lemma_merge_ascends::<InternalKeyComparator>(inputs, merged);
    assert(all_internal(merged));
    lemma_first_is_newest(merged);
    let places = lemma_merge_interleaves::<InternalKeyComparator>(inputs, merged);
    let from = lemma_default_keeps(merged);
    assert(merged[from[j]] == inputs[places[from[j]].0][places[from[j]].1]);
    places[from[j]]
}

/// With any strategy, the table of a compaction holds what the strategy keeps of
/// a merge of the inputs, in order.
pub proof fn lemma_strategy_decides<T: CompactionStrategy>(
    state: T::State,
    inputs: Seq<Seq<Entry>>,
    opts: TableOptions,
    file: Seq<u8>,
    end: T::State,
) -> (merged: Seq<Entry>)
    requires
        all_comparable::<InternalKeyComparator>(inputs),
        compacts_to::<T>(state, inputs, opts, file, end),
        readable(written_entries(surviving::<T>(state, in_order(inputs)), opts), opts),
    ensures
        is_merge::<InternalKeyComparator>(inputs, merged),
        table_entries(file) == (
            written_entries(surviving::<T>(state, merged), opts),
            None::<FormatError>,
        ),
{
    let merged = in_order(inputs);
    lemma_tournament_merge::<InternalKeyComparator>(inputs);
    lemma_table_round_trip(written_entries(surviving::<T>(state, merged), opts), opts);
    merged
}

/// What strategies decide about one version: the default one keeps it exactly if
/// it is the newest of its key and neither of the two deletions; the one for a
/// snapshot keeps the newest, and the first that the snapshot can see; the last
/// one keeps all.
pub proof fn lemma_decisions(key: KeyParts, first: bool, snapshot: u64, seen: bool)
    ensures
        decision(true) == KeepDecision::Keep,
        decision(false) == KeepDecision::Drop,
        BottommostStrategy::keeps((), key, first) <==> first && key.value_type
            != ValueType::Deletion && key.value_type != ValueType::SingleDeletion,
        SnapshotAwareStrategy::keeps((snapshot, seen), key, first) <==> first || (!seen
            && key.sequence <= snapshot),
        SnapshotAwareStrategy::after((snapshot, seen), key, first) == (
            snapshot,
            if first {
                key.sequence <= snapshot
            } else {
                seen || key.sequence <= snapshot
            },
        ),
        PassthroughStrategy::keeps((), key, first),
{
}

/// What is asked for a compaction: the inputs can be merged, they are few enough
/// to be numbered, and memory can hold all keys and values with nineteen bytes
/// more for each entry.
pub proof fn lemma_asked_for_compaction(inputs: Seq<Seq<Entry>>)
    ensures
        compactable(inputs) <==> mergeable::<InternalKeyComparator>(inputs) && 4 * inputs.len()
            <= usize::MAX && total_weight(inputs) + 8 <= usize::MAX,
        total_weight(Seq::empty()) == 0,
        inputs.len() > 0 ==> total_weight(inputs) == total_weight(inputs.drop_last()) + key_bytes(
            inputs.last(),
        ) + value_bytes(inputs.last()) + 19 * inputs.last().len(),
{
}

/// What is asked for a compaction in shards: what is asked for one at once, or,
/// where there is more than one shard, sources whose user keys ascend and that
/// are not too long to be divided.
pub proof fn lemma_asked_for_shards(sources: Seq<ArenaSource>, num_shards: usize)
    ensures
        num_shards <= 1 || sources.len() == 0 ==> (shardable(sources, num_shards) <==> compactable(
            inputs_of(sources),
        )),
        num_shards > 1 && sources.len() > 0 ==> (shardable(sources, num_shards) <==> {
            let inputs = contents_of(sources);
            &&& forall|i: int|
                0 <= i < inputs.len() ==> all_internal(#[trigger] inputs[i]) && user_keys_ascend(
                    inputs[i],
                )
            &&& 4 * inputs.len() <= usize::MAX
            &&& total_weight(inputs) + 8 <= usize::MAX
            &&& inputs[largest(inputs)].len() * (num_shards - 1) <= usize::MAX
        }),
        inputs_of(sources).len() == sources.len(),
        contents_of(sources).len() == sources.len(),
        forall|i: int|
            0 <= i < sources.len() ==> (#[trigger] sources[i]).remaining() == inputs_of(sources)[i]
                && sources[i].entries() == contents_of(sources)[i],
{
}

/// What is asked for a table to be read back: the lengths of its keys and values
/// and the number of its data blocks have 32 bits, and memory can hold it.
pub proof fn lemma_asked_for_reading(
    inputs: Seq<Seq<Entry>>,
    entries: Seq<Entry>,
    opts: TableOptions,
)
    ensures
        readable(entries, opts) <==> lengths_fit(entries) && block_groups(entries).len()
            <= 0xffff_ffff && table_of(entries, opts).len() <= usize::MAX,
        blocks_countable(inputs, opts) <==> block_groups(
            written_entries(bottommost(in_order(inputs)), opts),
        ).len() <= 0xffff_ffff,
        fits_arena(entries) <==> key_bytes(entries) + value_bytes(entries) <= 0xffff_ffff,
        in_order(inputs) == tournament_merge::<InternalKeyComparator>(inputs),
{
}

/// Lists of owned pairs hold the bytes of these pairs.
pub proof fn lemma_pairs(pairs: Seq<(Vec<u8>, Vec<u8>)>, lists: Seq<Vec<(Vec<u8>, Vec<u8>)>>)
    ensures
        entries_of(pairs).len() == pairs.len(),
        forall|i: int|
            0 <= i < pairs.len() ==> entries_of(pairs)[i] == ((#[trigger] pairs[i]).0@, pairs[i].1@),
        lists_of(lists).len() == lists.len(),
        forall|i: int|
            0 <= i < lists.len() ==> lists_of(lists)[i] == entries_of((#[trigger] lists[i])@),
        all_in_order(lists) == flat(lists_of(lists)),
{
    assert(lists_of(lists) =~= Seq::new(lists.len(), |i: int| entries_of(lists[i]@)));
}

/// Entries with their keys cut down to user keys.
pub proof fn lemma_user_entries(entries: Seq<Entry>, i: int)
    requires
        0 <= i < entries.len(),
        entries[i].0.len() >= 8,
    ensures
        user_entries(entries).len() == entries.len(),
        user_entries(entries)[i] == (entries[i].0.take(entries[i].0.len() - 8), entries[i].1),
{
    lemma_key_bytes(entries[i].0);
    assert(user_part(entries[i].0) =~= entries[i].0.take(entries[i].0.len() - 8));
}

/// What visitors make of entries, one after the other.
pub proof fn lemma_visits<V: EntryVisitor>(state: V::State, entries: Seq<Entry>, entry: Entry)
    ensures
        visit_all::<V>(state, Seq::empty()) == state,
        visit_all::<V>(state, entries.push(entry)) == V::after(
            visit_all::<V>(state, entries),
            entry.0,
            entry.1,
        ),
{
    assert(entries.push(entry).drop_last() =~= entries);
}

/// What is asked of lists that are compacted and read back, of draws, and of
/// sources and boundaries that are cut into shards.
pub proof fn lemma_asked_elsewhere(
    inputs: Seq<Seq<Entry>>,
    draw: KeyDraw,
    num_sources: usize,
    boundaries: Seq<Seq<u8>>,
    keys: Seq<Vec<u8>>,
    file: Seq<u8>,
)
    ensures
        fit_table(inputs) <==> (forall|i: int|
            0 <= i < inputs.len() ==> fits_arena(#[trigger] inputs[i])) && 4 * inputs.len()
            <= usize::MAX && total_weight(inputs) + 8 <= usize::MAX && total_weight(inputs) < 4088
            * 0xffff_ffff,
        draw.is_valid(num_sources) <==> 1 <= draw.sources@.len() <= 3 && forall|v: int|
            0 <= v < draw.sources@.len() ==> #[trigger] draw.sources@[v] < num_sources,
        inputs_sorted(inputs) <==> forall|i: int|
            0 <= i < inputs.len() ==> all_internal(#[trigger] inputs[i]) && user_keys_ascend(
                inputs[i],
            ),
        boundaries_sorted(boundaries) <==> (forall|i: int|
            0 <= i < boundaries.len() ==> (#[trigger] boundaries[i]).len() >= 8) && (forall|
            i: int,
            j: int,
        |
            0 <= i <= j < boundaries.len() ==> !bytes_before(
                user_part(#[trigger] boundaries[j]),
                user_part(#[trigger] boundaries[i]),
            )),
        keys_of(keys).len() == keys.len(),
        forall|i: int| 0 <= i < keys.len() ==> keys_of(keys)[i] == (#[trigger] keys[i])@,
        is_decodable(file) ==> table_entries(file).1 is None && all_internal(table_entries(file).0),
        compactor_output(inputs) == sorted_pairs(user_entries(bottommost(in_order(inputs)))),
{
    assert(LEAST_BLOCK_WEIGHT == 4088);
    assert(LEAST_BLOCK_WEIGHT * u32::MAX == 4088 * 0xffff_ffff);
    if boundaries_sorted(boundaries) {
        assert forall|i: int| 0 <= i < boundaries.len() implies (#[trigger] boundaries[i]).len()
            >= 8 by {
            assert(is_internal_key(boundaries[i]));
        }
    }
}

/// A key of fewer than eight bytes is passed over, whatever the strategy.
pub proof fn lemma_short_keys<T: CompactionStrategy>(
    state: T::State,
    merged: Seq<Entry>,
    entry: Entry,
)
    requires
        entry.0.len() < 8,
    ensures
        surviving::<T>(state, merged.push(entry)) == surviving::<T>(state, merged),
        walk::<T>(state, merged.push(entry)).state == walk::<T>(state, merged).state,
{
    assert(merged.push(entry).drop_last() =~= merged);
}

} // verus!
