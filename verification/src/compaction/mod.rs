//! Compaction: sorted inputs are merged, a strategy decides what is kept, and
//! a table is made of it.
//!
//! The output is one table per compaction. Range deletions are handled like
//! any other entry.

pub mod laws;
pub mod limits;
pub mod outcome;
pub mod shard;
pub mod strategy;
pub mod walk;

pub use limits::{can_compact, can_shard};
pub use shard::{compact_sharded, pick_shard_boundaries, plan_shards};
pub use strategy::{
    BottommostStrategy, CompactionStrategy, KeepDecision, PassthroughStrategy,
    SnapshotAwareStrategy,
};
use crate::entry::{
    append_bytes, copy_bytes, entries_of, key_bytes, lemma_bytes_push, lemma_weight_drop_first,
    same_bytes, total_weight, value_bytes, visit_all, weight, Entry, EntryVisitor,
};
use crate::error::FormatError;
use crate::format::internal_key::{is_internal_key, split, user_part};
use crate::format::sst_builder::{
    build_sst, table_bytes, without_seqno, written_entries, SstBuilderOptions, TableOptions,
};
use crate::merge::cmp::InternalKeyComparator;
use crate::merge::merged::{
    has_front, is_merge, is_smallest, left_in, lemma_left_in, mergeable, without_front,
};
use crate::merge::merger::{inputs_of, sources_inv, KWayMerge, LoserTreeMerger};
use crate::merge::source::{all_internal, ArenaSource, ArenaSourceBuilder, MergeSource};
use crate::merge::tree::tournament_merge;
use crate::sst::{table_entries, SstReader};
use vstd::prelude::*;
use walk::{surviving, walk, Walk};

verus! {

/// Takes entries into an arena as long as they can be addressed.
struct ArenaLoader {
    builder: ArenaSourceBuilder,
    overflowed: bool,
    seen: Ghost<Seq<Entry>>,
}

impl EntryVisitor for ArenaLoader {
    type State = Seq<Entry>;

    closed spec fn ready(&self) -> bool {
        let bytes = key_bytes(self.seen@) + value_bytes(self.seen@);
        &&& self.builder.inv()
        &&& self.overflowed == (bytes > u32::MAX)
        &&& !self.overflowed ==> self.builder.entries() == self.seen@
    }

    closed spec fn state(&self) -> Seq<Entry> {
        self.seen@
    }

    closed spec fn after(state: Seq<Entry>, key: Seq<u8>, value: Seq<u8>) -> Seq<Entry> {
        state.push((key, value))
    }

    fn visit(&mut self, key: &[u8], value: &[u8]) {
        proof {
            lemma_bytes_push(self.seen@, (key@, value@));
            self.seen@ = self.seen@.push((key@, value@));
        }
        if !self.overflowed {
            if self.builder.has_room(key, value) {
                self.builder.push(key, value);
            } else {
                self.overflowed = true;
            }
        }
    }
}

proof fn lemma_loaded(state: Seq<Entry>, entries: Seq<Entry>)
    ensures
        visit_all::<ArenaLoader>(state, entries) == state + entries,
    decreases entries.len(),
{
    if entries.len() == 0 {
        assert(state + entries =~= state);
    } else {
        lemma_loaded(state, entries.drop_last());
        assert((state + entries.drop_last()).push(entries.last()) =~= state + entries);
        assert(entries.last() == (entries.last().0, entries.last().1));
    }
}

/// Reads all entries of a table that is in memory into a source for a merge.
/// The keys and values of one source are limited to four gigabytes.
pub fn load_arena_source(file: &[u8]) -> (r: Result<ArenaSource, FormatError>)
    ensures
        ({
            let (entries, fault) = table_entries(file@);
            match fault {
                Some(e) => r matches Err(f) && f == e,
                None => if key_bytes(entries) + value_bytes(entries) > u32::MAX {
                    r matches Err(f) && f == FormatError::SourceTooLarge
                } else {
                    &&& r matches Ok(source)
                    &&& source.inv()
                    &&& source.entries() == entries
                    &&& source.remaining() == entries
                },
            }
        }),
{
    let reader = match SstReader::open(file) {
        Err(e) => {
            return Err(e);
        },
        Ok(reader) => reader,
    };
    let mut loader = ArenaLoader {
        builder: ArenaSourceBuilder::new(),
        overflowed: false,
        seen: Ghost(Seq::empty()),
    };
    match reader.for_each_entry(file, &mut loader) {
        Err(e) => {
            return Err(e);
        },
        Ok(_) => {},
    }
    proof {
        let entries = table_entries(file@).0;
        lemma_loaded(Seq::empty(), entries);
        assert(Seq::<Entry>::empty() + entries =~= entries);
    }
    if loader.overflowed {
        return Err(FormatError::SourceTooLarge);
    }
    Ok(loader.builder.build())
}

/// How the output of a compaction is to be written.
pub struct CompactionOptions {
    pub sst_builder: SstBuilderOptions,
}

impl Clone for CompactionOptions {
    fn clone(&self) -> (r: Self)
        ensures
            r.sst_builder@ == self.sst_builder@,
    {
        CompactionOptions { sst_builder: self.sst_builder.clone() }
    }
}

/// Whether inputs can be compacted: they can be merged, and memory can hold
/// what comes out.
pub open spec fn compactable(inputs: Seq<Seq<Entry>>) -> bool {
    &&& mergeable::<InternalKeyComparator>(inputs)
    &&& 4 * inputs.len() <= usize::MAX
    &&& total_weight(inputs) + 8 <= usize::MAX
}

/// The inputs of a compaction in the order in which it takes their entries.
pub open spec fn in_order(inputs: Seq<Seq<Entry>>) -> Seq<Entry> {
    tournament_merge::<InternalKeyComparator>(inputs)
}

/// Whether a strategy that starts in `state` makes `file` of the inputs, and
/// ends in `end`.
pub open spec fn compacts_to<T: CompactionStrategy>(
    state: T::State,
    inputs: Seq<Seq<Entry>>,
    opts: TableOptions,
    file: Seq<u8>,
    end: T::State,
) -> bool {
    &&& file == table_bytes(surviving::<T>(state, in_order(inputs)), opts)
    &&& end == walk::<T>(state, in_order(inputs)).state
}

/// Compacts sorted sources: the newest version of each key is kept unless it
/// is a tombstone.
pub fn compact(sources: Vec<ArenaSource>, opts: &CompactionOptions) -> (r: Result<
    Vec<u8>,
    FormatError,
>)
    requires
        sources_inv(sources@),
        compactable(inputs_of(sources@)),
    ensures
        r matches Ok(file) && compacts_to::<BottommostStrategy>(
            (),
            inputs_of(sources@),
            opts.sst_builder@,
            file@,
            (),
        ),
{
    let mut strategy = BottommostStrategy;
    compact_with_strategy(sources, opts, &mut strategy)
}

/// Merges sorted sources and makes a table of what the strategy keeps.
pub fn compact_with_strategy<T: CompactionStrategy>(
    sources: Vec<ArenaSource>,
    opts: &CompactionOptions,
    strategy: &mut T,
) -> (r: Result<Vec<u8>, FormatError>)
    requires
        sources_inv(sources@),
        compactable(inputs_of(sources@)),
    ensures
        r matches Ok(file) && compacts_to::<T>(
            old(strategy).state(),
            inputs_of(sources@),
            opts.sst_builder@,
            file@,
            final(strategy).state(),
        ),
{
    let merger: LoserTreeMerger<ArenaSource> = LoserTreeMerger::new(sources);
    Ok(drain(merger, opts, strategy))
}

/// Makes a table of what the strategy keeps of a merge.
#[verifier::rlimit(50)]
fn drain<T: CompactionStrategy>(
    merger: LoserTreeMerger<ArenaSource>,
    opts: &CompactionOptions,
    strategy: &mut T,
) -> (r: Vec<u8>)
    requires
        merger.inv(),
        total_weight(merger.inputs()) + 8 <= usize::MAX,
    ensures
        r@ == table_bytes(
            surviving::<T>(old(strategy).state(), merger.order()),
            opts.sst_builder@,
        ),
        final(strategy).state() == walk::<T>(old(strategy).state(), merger.order()).state,
{
    let mut merger = merger;
    let ghost first = merger.inputs();
    let ghost order = merger.order();
    let mut output = Output::new();
    let ghost mut merged = Seq::<Entry>::empty();
    let ghost start = strategy.state();
    assert(merged + order =~= order);
    let mut running = true;
    while running
        invariant
            merger.inv(),
            start == old(strategy).state(),
            merged + merger.order() == order,
            strategy.state() == walk::<T>(start, merged).state,
            output.is_at::<T>(walk::<T>(start, merged)),
            output.weight() + total_weight(merger.inputs()) <= total_weight(first),
            !running ==> merger.order() == Seq::<Entry>::empty(),
        decreases running as int, left_in(merger.inputs()),
    {
        let ghost now = merger.inputs();
        let ghost source = merger.next_source();
        match merger.front() {
            None => {
                running = false;
            },
            Some((key, value)) => {
                output.take(strategy, key, value, Ghost(start), Ghost(merged));
                proof {
                    lemma_total_weight_step(now, source);
                    lemma_left_in(now, source);
                    let rest = merger.order();
                    assert(merged.push(rest[0]) + rest.drop_first() =~= merged + rest);
                    merged = merged.push((key@, value@));
                }
                merger.step();
            },
        }
    }
    assert(merged =~= order);
    output.into_table(opts)
}

/// What a compaction has kept so far, and the user key it has come to.
struct Output {
    entries: Vec<(Vec<u8>, Vec<u8>)>,
    last_user_key: Vec<u8>,
    has_last_user_key: bool,
}

impl Output {
    spec fn is_at<T: CompactionStrategy>(&self, at: Walk<T>) -> bool {
        &&& entries_of(self.entries@) == at.kept
        &&& at.last == if self.has_last_user_key {
            Some(self.last_user_key@)
        } else {
            None
        }
        &&& all_internal(at.kept)
    }

    spec fn weight(&self) -> nat {
        weight(entries_of(self.entries@))
    }

    fn new() -> (r: Self)
        ensures
            r.entries@.len() == 0,
            !r.has_last_user_key,
            r.weight() == 0,
            entries_of(r.entries@) == Seq::<Entry>::empty(),
    {
        let r = Output {
            entries: Vec::new(),
            last_user_key: Vec::new(),
            has_last_user_key: false,
        };
        assert(entries_of(r.entries@) =~= Seq::<Entry>::empty());
        r
    }

    /// Takes in the next entry of the merge.
    #[verifier::rlimit(50)]
    fn take<T: CompactionStrategy>(
        &mut self,
        strategy: &mut T,
        key: &[u8],
        value: &[u8],
        start: Ghost<T::State>,
        merged: Ghost<Seq<Entry>>,
    )
        requires
            old(self).is_at::<T>(walk::<T>(start@, merged@)),
            old(strategy).state() == walk::<T>(start@, merged@).state,
        ensures
            final(self).is_at::<T>(walk::<T>(start@, merged@.push((key@, value@)))),
            final(strategy).state() == walk::<T>(start@, merged@.push((key@, value@))).state,
            final(self).weight() <= old(self).weight() + key@.len() + value@.len() + 19,
    {
        let ghost before = walk::<T>(start@, merged@);
        let ghost kept = entries_of(self.entries@);
        let ghost entry = (key@, value@);
        proof {
            assert(merged@.push(entry).drop_last() =~= merged@);
            lemma_bytes_push(kept, entry);
        }
        // An entry whose key is too short is passed over.
        if let Ok(ik) = split(key) {
            let is_first = !self.has_last_user_key || !same_bytes(
                self.last_user_key.as_slice(),
                ik.user_key,
            );
            assert(ik@ == crate::format::internal_key::key_parts(key@));
            assert(ik.user_key@ == user_part(key@));
            assert(is_first == (before.last != Some(user_part(key@))));
            self.last_user_key.clear();
            append_bytes(&mut self.last_user_key, ik.user_key);
            assert(self.last_user_key@ =~= user_part(key@));
            self.has_last_user_key = true;
            match strategy.decide(&ik, is_first) {
                KeepDecision::Drop => {},
                KeepDecision::Keep => {
                    self.entries.push((copy_bytes(key), copy_bytes(value)));
                    assert(entries_of(self.entries@) =~= kept.push(entry));
                },
            }
        }
    }

    /// The table of what has been kept.
    fn into_table(self, opts: &CompactionOptions) -> (r: Vec<u8>)
        requires
            all_internal(entries_of(self.entries@)),
            self.weight() + 8 <= usize::MAX,
        ensures
            r@ == table_bytes(entries_of(self.entries@), opts.sst_builder@),
    {
        proof {
            lemma_written_weight(entries_of(self.entries@), opts.sst_builder@);
            assert forall|i: int| 0 <= i < self.entries@.len() implies is_internal_key(
                #[trigger] self.entries@[i].0@,
            ) by {
                assert(is_internal_key(entries_of(self.entries@)[i].0));
            }
        }
        build_sst(self.entries.as_slice(), &opts.sst_builder)
    }
}

/// Taking a front takes its weight.
pub proof fn lemma_total_weight_step(inputs: Seq<Seq<Entry>>, i: int)
    requires
        has_front(inputs, i),
    ensures
        total_weight(inputs) == total_weight(without_front(inputs, i)) + inputs[i][0].0.len()
            + inputs[i][0].1.len() + 19,
    decreases inputs.len(),
{
    let next = without_front(inputs, i);
    if i == inputs.len() - 1 {
        assert(next.drop_last() =~= inputs.drop_last());
        lemma_weight_drop_first(inputs[i]);
    } else {
        assert(next.drop_last() =~= without_front(inputs.drop_last(), i));
        lemma_total_weight_step(inputs.drop_last(), i);
    }
}

/// A merge weighs what its inputs weigh.
pub proof fn lemma_merge_weight(inputs: Seq<Seq<Entry>>, merged: Seq<Entry>)
    requires
        is_merge::<InternalKeyComparator>(inputs, merged),
    ensures
        weight(merged) == total_weight(inputs),
    decreases merged.len(),
{
    if merged.len() == 0 {
        lemma_no_weight(inputs);
    } else {
        let i = choose|i: int|
            {
                &&& #[trigger] is_smallest::<InternalKeyComparator>(inputs, i)
                &&& inputs[i][0] == merged[0]
                &&& is_merge::<InternalKeyComparator>(
                    without_front(inputs, i),
                    merged.drop_first(),
                )
            };
        lemma_merge_weight(without_front(inputs, i), merged.drop_first());
        lemma_total_weight_step(inputs, i);
        lemma_weight_drop_first(merged);
    }
}

proof fn lemma_no_weight(inputs: Seq<Seq<Entry>>)
    requires
        forall|i: int| !#[trigger] has_front(inputs, i),
    ensures
        total_weight(inputs) == 0,
    decreases inputs.len(),
{
    if inputs.len() > 0 {
        let before = inputs.drop_last();
        assert forall|i: int| !#[trigger] has_front(before, i) by {
            assert(!has_front(inputs, i));
        }
        lemma_no_weight(before);
        assert(!has_front(inputs, inputs.len() - 1));
    }
}

/// What a strategy keeps weighs no more than all, and has internal keys.
pub proof fn lemma_surviving<T: CompactionStrategy>(state: T::State, merged: Seq<Entry>)
    ensures
        weight(surviving::<T>(state, merged)) <= weight(merged),
        all_internal(surviving::<T>(state, merged)),
    decreases merged.len(),
{
    if merged.len() > 0 {
        let before = merged.drop_last();
        lemma_surviving::<T>(state, before);
        lemma_bytes_push(before, merged.last());
        lemma_bytes_push(surviving::<T>(state, before), merged.last());
        assert(before.push(merged.last()) =~= merged);
        assert(merged.last() == (merged.last().0, merged.last().1));
    }
}

/// Removing sequence numbers changes no length.
pub proof fn lemma_written_weight(entries: Seq<Entry>, opts: TableOptions)
    requires
        all_internal(entries),
    ensures
        weight(written_entries(entries, opts)) == weight(entries),
    decreases entries.len(),
{
    let written = written_entries(entries, opts);
    if entries.len() > 0 && opts.external_sst_global_seqno is Some {
        let before = entries.drop_last();
        let n = entries.len() - 1;
        assert forall|i: int| 0 <= i < before.len() implies is_internal_key(
            #[trigger] before[i].0,
        ) by {
            assert(is_internal_key(entries[i].0));
        }
        lemma_written_weight(before, opts);
        assert(written.drop_last() =~= written_entries(before, opts));
        assert(is_internal_key(entries[n].0));
        vstd::bytes::lemma_auto_spec_u64_to_from_le_bytes();
        assert(without_seqno(entries[n].0).len() == entries[n].0.len());
    }
}

} // verus!
