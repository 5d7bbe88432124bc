//! What holds of whole compactions, from the sources to what readers of the
//! tables find.

use crate::compaction::shard::{
    boundaries_sorted, boundary_keys, contents_of, inputs_sorted, largest,
    lemma_boundaries_sorted, lemma_shard_compactable, lemma_shard_starts,
    lemma_sharded_reads_the_same, lemma_shards_share_no_user_key, shard_inputs, shard_start,
    shardable, shards_compact_to,
};
use crate::compaction::strategy::BottommostStrategy;
use crate::compaction::walk::{
    bottommost, lemma_compacting_again, lemma_first_is_newest, lemma_survivor_origin,
    lemma_walk_last,
};
use crate::compaction::{
    compactable, compacts_to, in_order, lemma_merge_weight, lemma_surviving,
    lemma_written_weight,
};
use crate::entry::{flat, total_weight, weight, Entry};
use crate::error::FormatError;
use crate::format::block_builder::lengths_fit;
use crate::format::internal_key::{
    is_internal_key, lemma_join_key, packed_part, type_byte_part, user_part,
};
use crate::format::sst_builder::{
    block_groups, table_bytes, without_seqno, written_entries, TableOptions,
};
use crate::merge::cmp::{bytes_before, InternalKeyComparator};
use crate::merge::merged::{
    all_ascending, all_comparable, all_entries, has_front, is_merge, lemma_merge_ascends,
    lemma_merge_origin, mergeable, without_front,
};
use crate::merge::merger::{inputs_of, sources_inv};
use crate::merge::source::{all_internal, ArenaSource, MergeSource};
use crate::merge::tree::{lefts_after, lemma_tournament_merge, tournament, winner_at};
use crate::oracle::first_ties_agree;
use crate::round_trip::{lemma_table_round_trip, readable};
use crate::sst::table_entries;
use vstd::prelude::*;

verus! {

/// What the default compaction keeps of the inputs, as it is written.
pub open spec fn output_of(inputs: Seq<Seq<Entry>>, opts: TableOptions) -> Seq<Entry> {
    written_entries(bottommost(in_order(inputs)), opts)
}

/// Whether the data blocks of the table that the default compaction makes of the
/// inputs can be counted in 32 bits, as the format does.
pub open spec fn blocks_countable(inputs: Seq<Seq<Entry>>, opts: TableOptions) -> bool {
    block_groups(output_of(inputs, opts)).len() <= u32::MAX
}

/// What is kept of a merge is short enough where the inputs are.
pub proof fn lemma_kept_lengths(inputs: Seq<Seq<Entry>>, merged: Seq<Entry>)
    requires
        is_merge::<InternalKeyComparator>(inputs, merged),
        forall|i: int| 0 <= i < inputs.len() ==> lengths_fit(#[trigger] inputs[i]),
    ensures
        lengths_fit(bottommost(merged)),
{
    let kept = bottommost(merged);
    assert forall|p: int| 0 <= p < kept.len() implies #[trigger] kept[p].0.len() <= u32::MAX
        && kept[p].1.len() <= u32::MAX by {
        let q = lemma_survivor_origin::<BottommostStrategy>((), merged, p);
        let at = lemma_merge_origin::<InternalKeyComparator>(inputs, merged, q);
        assert(lengths_fit(inputs[at.0]));
        assert(inputs[at.0][at.1].0.len() <= u32::MAX);
    }
}

/// What is written of an internal key has its user key, its type and its length.
proof fn lemma_written_key(key: Seq<u8>)
    requires
        is_internal_key(key),
    ensures
        is_internal_key(without_seqno(key)),
        without_seqno(key).len() == key.len(),
        user_part(without_seqno(key)) == user_part(key),
        type_byte_part(without_seqno(key)) == type_byte_part(key),
        without_seqno(without_seqno(key)) == without_seqno(key),
{
    vstd::bytes::lemma_auto_spec_u64_to_from_le_bytes();
    lemma_join_key(user_part(key), packed_part(key) % 256);
}

/// What a compaction writes is short enough where the inputs are, and has
/// internal keys.
proof fn lemma_output(inputs: Seq<Seq<Entry>>, opts: TableOptions)
    requires
        mergeable::<InternalKeyComparator>(inputs),
        forall|i: int| 0 <= i < inputs.len() ==> lengths_fit(#[trigger] inputs[i]),
    ensures
        lengths_fit(output_of(inputs, opts)),
        all_internal(output_of(inputs, opts)),
{
    let merged = in_order(inputs);
    let kept = bottommost(merged);
    let written = output_of(inputs, opts);
    lemma_tournament_merge::<InternalKeyComparator>(inputs);
    lemma_kept_lengths(inputs, merged);
    lemma_surviving::<BottommostStrategy>((), merged);
    assert forall|i: int| 0 <= i < written.len() implies #[trigger] written[i].0.len()
        <= u32::MAX && written[i].1.len() <= u32::MAX && is_internal_key(written[i].0) by {
        assert(kept[i].0.len() <= u32::MAX && is_internal_key(kept[i].0));
        lemma_written_key(kept[i].0);
    }
}

/// A compaction can be read back: what comes out is what was kept.
pub proof fn lemma_compaction_reads_back(
    inputs: Seq<Seq<Entry>>,
    opts: TableOptions,
    file: Seq<u8>,
)
    requires
        mergeable::<InternalKeyComparator>(inputs),
        forall|i: int| 0 <= i < inputs.len() ==> lengths_fit(#[trigger] inputs[i]),
        compacts_to::<BottommostStrategy>((), inputs, opts, file, ()),
        blocks_countable(inputs, opts),
        file.len() <= usize::MAX,
    ensures
        readable(output_of(inputs, opts), opts),
        table_entries(file) == (output_of(inputs, opts), None::<FormatError>),
{
    lemma_output(inputs, opts);
    lemma_table_round_trip(output_of(inputs, opts), opts);
}

/// The sources have short keys and values.
proof fn lemma_short_inputs(sources: Seq<ArenaSource>)
    requires
        sources_inv(sources),
    ensures
        forall|i: int| 0 <= i < sources.len() ==> lengths_fit(#[trigger] inputs_of(sources)[i]),
        forall|i: int| 0 <= i < sources.len() ==> lengths_fit(#[trigger] contents_of(sources)[i]),
{
    assert forall|i: int| 0 <= i < sources.len() implies lengths_fit(
        #[trigger] inputs_of(sources)[i],
    ) && lengths_fit(contents_of(sources)[i]) by {
        assert(sources[i].inv());
        sources[i].lemma_short_entries();
    }
    assert forall|i: int| 0 <= i < sources.len() implies lengths_fit(
        #[trigger] contents_of(sources)[i],
    ) by {
        assert(lengths_fit(inputs_of(sources)[i]));
    }
}

/// The part of short inputs that falls into a shard is short.
proof fn lemma_short_shard(inputs: Seq<Seq<Entry>>, boundaries: Seq<Seq<u8>>, s: int)
    requires
        inputs_sorted(inputs),
        boundaries_sorted(boundaries),
        0 <= s <= boundaries.len(),
        forall|i: int| 0 <= i < inputs.len() ==> lengths_fit(#[trigger] inputs[i]),
    ensures
        forall|i: int|
            0 <= i < inputs.len() ==> lengths_fit(
                #[trigger] shard_inputs(inputs, boundaries, s)[i],
            ),
{
    let shard = shard_inputs(inputs, boundaries, s);
    assert forall|i: int| 0 <= i < inputs.len() implies lengths_fit(#[trigger] shard[i]) by {
        assert(lengths_fit(inputs[i]) && all_internal(inputs[i]));
        lemma_shard_starts(inputs[i], boundaries, s);
        let start = shard_start(inputs[i], boundaries, s);
        assert forall|k: int| 0 <= k < shard[i].len() implies #[trigger] shard[i][k].0.len()
            <= u32::MAX && shard[i][k].1.len() <= u32::MAX by {
            assert(inputs[i][start + k].0.len() <= u32::MAX);
        }
    }
}

/// The inputs of the shards of sources.
pub open spec fn shard_of(sources: Seq<ArenaSource>, num_shards: usize, s: int) -> Seq<
    Seq<Entry>,
> {
    let inputs = contents_of(sources);
    if num_shards <= 1 || sources.len() == 0 {
        inputs
    } else {
        shard_inputs(inputs, boundary_keys(inputs, num_shards as int), s)
    }
}

/// What a reader of the tables of all shards finds, one table after the other.
pub open spec fn read_in_turn(files: Seq<Vec<u8>>) -> Seq<Entry> {
    flat(Seq::new(files.len(), |s: int| table_entries(files[s]@).0))
}

/// Every shard of sorted sources can be merged, and its table read back.
proof fn lemma_shard_reads_back(
    sources: Seq<ArenaSource>,
    num_shards: usize,
    opts: TableOptions,
    files: Seq<Vec<u8>>,
    s: int,
)
    requires
        sources_inv(sources),
        inputs_of(sources) == contents_of(sources),
        shardable(sources, num_shards),
        shards_compact_to(sources, num_shards, opts, files),
        0 <= s < files.len(),
        blocks_countable(shard_of(sources, num_shards, s), opts),
    ensures
        compactable(shard_of(sources, num_shards, s)),
        readable(output_of(shard_of(sources, num_shards, s), opts), opts),
        table_entries(files[s]@) == (
            output_of(shard_of(sources, num_shards, s), opts),
            None::<FormatError>,
        ),
{
    let inputs = contents_of(sources);
    let shard = shard_of(sources, num_shards, s);
    lemma_short_inputs(sources);
    assert(files[s].len() == files[s]@.len());
    if num_shards > 1 && sources.len() > 0 {
        let boundaries = boundary_keys(inputs, num_shards as int);
        lemma_boundaries_sorted(inputs, num_shards as int);
        lemma_shard_compactable(inputs, boundaries, s);
        lemma_short_shard(inputs, boundaries, s);
    }
    lemma_compaction_reads_back(shard, opts, files[s]@);
}

/// Compacting in shards gives what compacting at once gives: reading the tables
/// of the shards one after the other gives what reading the one table gives,
/// where different newest versions of a user key have different keys. There are
/// as many tables as shards, if there is an entry at all.
#[verifier::rlimit(50)]
pub proof fn lemma_sharded_compaction(
    sources: Seq<ArenaSource>,
    num_shards: usize,
    opts: TableOptions,
    files: Seq<Vec<u8>>,
    whole: Vec<u8>,
)
    requires
        sources_inv(sources),
        inputs_of(sources) == contents_of(sources),
        shardable(sources, num_shards),
        all_ascending::<InternalKeyComparator>(contents_of(sources)),
        first_ties_agree(all_entries(contents_of(sources))),
        shards_compact_to(sources, num_shards, opts, files),
        compacts_to::<BottommostStrategy>((), contents_of(sources), opts, whole@, ()),
        blocks_countable(contents_of(sources), opts),
        forall|s: int|
            0 <= s < files.len() ==> blocks_countable(
                #[trigger] shard_of(sources, num_shards, s),
                opts,
            ),
    ensures
        read_in_turn(files) == table_entries(whole@).0,
        table_entries(whole@).1 is None,
        forall|s: int| 0 <= s < files.len() ==> table_entries(#[trigger] files[s]@).1 is None,
        num_shards >= 1 && (exists|i: int| #[trigger] has_front(contents_of(sources), i))
            ==> files.len() == num_shards,
{
    let inputs = contents_of(sources);
    lemma_short_inputs(sources);
    assert(whole.len() == whole@.len());
    assert forall|s: int| 0 <= s < files.len() implies table_entries(
        #[trigger] files[s]@,
    ).1 is None by {
        assert(blocks_countable(shard_of(sources, num_shards, s), opts));
        lemma_shard_reads_back(sources, num_shards, opts, files, s);
    }
    if num_shards <= 1 || sources.len() == 0 {
        assert(files.len() == 1);
        assert(blocks_countable(shard_of(sources, num_shards, 0), opts));
        let read = Seq::new(files.len(), |s: int| table_entries(files[s]@).0);
        assert(read.drop_last() =~= Seq::<Seq<Entry>>::empty());
        assert(flat(read.drop_last()) == Seq::<Entry>::empty());
        assert(read.last() == table_entries(whole@).0);
        assert(read_in_turn(files) =~= table_entries(whole@).0);
        assert(table_entries(files[0]@).1 is None);
    } else {
        let boundaries = boundary_keys(inputs, num_shards as int);
        let merges = Seq::new(
            files.len(),
            |s: int| in_order(shard_inputs(inputs, boundaries, s)),
        );
        lemma_boundaries_sorted(inputs, num_shards as int);
        assert forall|s: int| 0 <= s < merges.len() implies is_merge::<InternalKeyComparator>(
            shard_inputs(inputs, boundaries, s),
            #[trigger] merges[s],
        ) && readable(written_entries(bottommost(merges[s]), opts), opts) by {
            assert(blocks_countable(shard_of(sources, num_shards, s), opts));
            lemma_shard_reads_back(sources, num_shards, opts, files, s);
            lemma_tournament_merge::<InternalKeyComparator>(
                shard_inputs(inputs, boundaries, s),
            );
        }
        lemma_comparable(inputs);
        lemma_compaction_reads_back(inputs, opts, whole@);
        lemma_tournament_merge::<InternalKeyComparator>(inputs);
        lemma_sharded_reads_the_same(inputs, boundaries, merges, in_order(inputs), opts);
        assert(Seq::new(files.len(), |s: int| table_entries(files[s]@).0) =~= Seq::new(
            merges.len(),
            |s: int| table_entries(table_bytes(bottommost(merges[s]), opts)).0,
        ));
        if exists|i: int| #[trigger] has_front(inputs, i) {
            let i = choose|i: int| #[trigger] has_front(inputs, i);
            lemma_largest_is_longest(inputs, i);
        }
    }
}

/// Sorted inputs can be compared.
proof fn lemma_comparable(inputs: Seq<Seq<Entry>>)
    requires
        inputs_sorted(inputs),
    ensures
        all_comparable::<InternalKeyComparator>(inputs),
{
    assert forall|i: int, k: int| 0 <= i < inputs.len() && 0 <= k < inputs[i].len() implies
        is_internal_key(#[trigger] inputs[i][k].0) by {
        assert(all_internal(inputs[i]));
    }
}

/// No input is longer than the largest.
proof fn lemma_largest_is_longest(inputs: Seq<Seq<Entry>>, i: int)
    requires
        0 <= i < inputs.len(),
    ensures
        0 <= largest(inputs) < inputs.len(),
        inputs[i].len() <= inputs[largest(inputs)].len(),
    decreases inputs.len(),
{
    if inputs.len() > 1 {
        let before = inputs.drop_last();
        if i < before.len() {
            lemma_largest_is_longest(before, i);
        } else {
            lemma_largest_is_longest(before, 0);
        }
    }
}

/// The tables of shards share no user key: every user key in the table of a
/// shard comes before every user key in the table of a later one.
pub proof fn lemma_shard_tables_share_no_user_key(
    sources: Seq<ArenaSource>,
    num_shards: usize,
    opts: TableOptions,
    files: Seq<Vec<u8>>,
    s: int,
    t: int,
    i: int,
    j: int,
)
    requires
        sources_inv(sources),
        inputs_of(sources) == contents_of(sources),
        shardable(sources, num_shards),
        shards_compact_to(sources, num_shards, opts, files),
        0 <= s < t < files.len(),
        blocks_countable(shard_of(sources, num_shards, s), opts),
        blocks_countable(shard_of(sources, num_shards, t), opts),
        0 <= i < table_entries(files[s]@).0.len(),
        0 <= j < table_entries(files[t]@).0.len(),
    ensures
        bytes_before(
            user_part(table_entries(files[s]@).0[i].0),
            user_part(table_entries(files[t]@).0[j].0),
        ),
{
    let inputs = contents_of(sources);
    let boundaries = boundary_keys(inputs, num_shards as int);
    lemma_boundaries_sorted(inputs, num_shards as int);
    lemma_shard_reads_back(sources, num_shards, opts, files, s);
    lemma_shard_reads_back(sources, num_shards, opts, files, t);
    let a = lemma_output_origin(shard_inputs(inputs, boundaries, s), opts, i);
    let b = lemma_output_origin(shard_inputs(inputs, boundaries, t), opts, j);
    lemma_shards_share_no_user_key(inputs, boundaries, s, t, a.0, a.1, b.0, b.1);
}

/// Every user key that a compaction writes is from one of its inputs.
proof fn lemma_output_origin(inputs: Seq<Seq<Entry>>, opts: TableOptions, p: int) -> (at: (
    int,
    int,
))
    requires
        mergeable::<InternalKeyComparator>(inputs),
        0 <= p < output_of(inputs, opts).len(),
    ensures
        0 <= at.0 < inputs.len(),
        0 <= at.1 < inputs[at.0].len(),
        user_part(inputs[at.0][at.1].0) == user_part(output_of(inputs, opts)[p].0),
{
    let merged = in_order(inputs);
    lemma_tournament_merge::<InternalKeyComparator>(inputs);
    lemma_surviving::<BottommostStrategy>((), merged);
    assert(is_internal_key(bottommost(merged)[p].0));
    lemma_written_key(bottommost(merged)[p].0);
    let q = lemma_survivor_origin::<BottommostStrategy>((), merged, p);
    lemma_merge_origin::<InternalKeyComparator>(inputs, merged, q)
}

/// The entries of one input come out in their own order.
proof fn lemma_one_input(entries: Seq<Entry>, lefts: Set<int>)
    ensures
        tournament::<InternalKeyComparator>(seq![entries], lefts, 1) == entries,
    decreases entries.len(),
{
    let inputs = seq![entries];
    assert(winner_at::<InternalKeyComparator>(inputs, lefts, 1, 1) == 0);
    if entries.len() > 0 {
        assert(without_front(inputs, 0) =~= seq![entries.drop_first()]);
        lemma_one_input(entries.drop_first(), lefts_after(lefts, 1, 0));
        assert(seq![entries[0]] + entries.drop_first() =~= entries);
    } else {
        assert(!has_front(inputs, 0));
    }
}

/// What is kept does not depend on sequence numbers.
proof fn lemma_bottommost_written(entries: Seq<Entry>, opts: TableOptions)
    requires
        all_internal(entries),
    ensures
        bottommost(written_entries(entries, opts)) == written_entries(bottommost(entries), opts),
    decreases entries.len(),
{
    let written = written_entries(entries, opts);
    if opts.external_sst_global_seqno is Some {
        if entries.len() == 0 {
            assert(bottommost(written) =~= written_entries(bottommost(entries), opts));
        } else {
            let before = entries.drop_last();
            let n = entries.len() - 1;
            assert forall|i: int| 0 <= i < entries.len() implies is_internal_key(
                #[trigger] entries[i].0,
            ) && is_internal_key(written[i].0) by {
                lemma_written_key(entries[i].0);
            }
            assert(written.drop_last() =~= written_entries(before, opts));
            assert(all_internal(before)) by {
                assert forall|i: int| 0 <= i < before.len() implies is_internal_key(
                    #[trigger] before[i].0,
                ) by {
                    assert(is_internal_key(entries[i].0));
                }
            }
            assert(all_internal(written_entries(before, opts))) by {
                assert forall|i: int| 0 <= i < before.len() implies is_internal_key(
                    #[trigger] written_entries(before, opts)[i].0,
                ) by {
                    assert(is_internal_key(entries[i].0) && is_internal_key(written[i].0));
                }
            }
            lemma_bottommost_written(before, opts);
            lemma_walk_last::<BottommostStrategy>((), before);
            lemma_walk_last::<BottommostStrategy>((), written_entries(before, opts));
            lemma_written_key(entries[n].0);
            if n > 0 {
                assert(is_internal_key(entries[n - 1].0));
                lemma_written_key(entries[n - 1].0);
            }
            assert(entries.last() == (entries.last().0, entries.last().1));
            assert(written_entries(bottommost(before).push(entries.last()), opts)
                =~= written_entries(bottommost(before), opts).push(written.last()));
        }
    }
}

/// Compacting what has been compacted changes nothing: where a source holds what
/// reading the table of a compaction gives, compacting it with the same options
/// gives that table again, byte for byte.
pub proof fn lemma_compacting_twice(
    sources: Seq<ArenaSource>,
    opts: TableOptions,
    file: Vec<u8>,
    source: ArenaSource,
    again: Vec<u8>,
)
    requires
        sources_inv(sources),
        compactable(inputs_of(sources)),
        all_comparable::<InternalKeyComparator>(inputs_of(sources)),
        all_ascending::<InternalKeyComparator>(inputs_of(sources)),
        compacts_to::<BottommostStrategy>((), inputs_of(sources), opts, file@, ()),
        blocks_countable(inputs_of(sources), opts),
        source.inv(),
        source.remaining() == table_entries(file@).0,
        compacts_to::<BottommostStrategy>((), inputs_of(seq![source]), opts, again@, ()),
    ensures
        compactable(inputs_of(seq![source])),
        again@ == file@,
{
    let inputs = inputs_of(sources);
    let merged = in_order(inputs);
    let kept = bottommost(merged);
    let output = output_of(inputs, opts);
    lemma_short_inputs(sources);
    assert(file.len() == file@.len());
    lemma_compaction_reads_back(inputs, opts, file@);
    let next = inputs_of(seq![source]);
    assert(next =~= seq![output]);
    lemma_one_input(output, Set::empty());
    assert(in_order(next) == output);
    lemma_tournament_merge::<InternalKeyComparator>(inputs);
    lemma_merge_ascends::<InternalKeyComparator>(inputs, merged);
    assert(all_internal(merged));
    lemma_first_is_newest(merged);
    lemma_compacting_again(merged);
    lemma_surviving::<BottommostStrategy>((), merged);
    lemma_bottommost_written(kept, opts);
    assert(bottommost(output) == output);
    assert(written_entries(output, opts) =~= output) by {
        assert forall|i: int| 0 <= i < output.len() implies written_entries(output, opts)[i]
            == #[trigger] output[i] by {
            assert(is_internal_key(kept[i].0));
            lemma_written_key(kept[i].0);
        }
    }
    lemma_merge_weight(inputs, merged);
    lemma_written_weight(kept, opts);
    assert(total_weight(next) == weight(output)) by {
        assert(next.drop_last() =~= Seq::<Seq<Entry>>::empty());
        assert(total_weight(next.drop_last()) == 0);
    }
}

} // verus!
