//! Inputs for comparing the two ways to compact, and what the real one makes
//! of them.

use crate::compaction::laws::lemma_compaction_reads_back;
use crate::compaction::strategy::BottommostStrategy;
use crate::compaction::walk::bottommost;
use crate::compaction::{
    compact, compacts_to, in_order, lemma_merge_weight, lemma_surviving, CompactionOptions,
};
use crate::entry::{
    append_bytes, copy_bytes, entries_of, flat, lemma_bytes_monotonic, lemma_bytes_push,
    total_weight, visit_all, Entry, EntryVisitor,
};
use crate::format::block_builder::lengths_fit;
use crate::format::internal_key::{
    is_internal_key, join_key, lemma_join_key, sequence_part, split, type_byte_part, user_part,
};
use crate::format::laws::lemma_key_bytes;
use crate::format::sst_builder::{SstBuilderOptions, TableOptions};
use crate::merge::cmp::{bytes_before, lemma_bytes_order, sorts_before, InternalKeyComparator};
use crate::merge::merged::{all_ascending, all_comparable, all_entries, mergeable};
use crate::merge::merger::{inputs_of, sources_inv};
use crate::merge::source::{
    all_internal, fits_arena, lemma_fits_arena, ArenaSource, ArenaSourceBuilder, MergeSource,
};
use crate::merge::tree::lemma_tournament_merge;
use crate::oracle::{
    is_plain_compaction, lemma_compaction_matches_plain, newest_agree, strictly_ascending,
    user_entries,
};
use crate::round_trip::{
    lemma_group_count, lemma_index_named_once, names_index_once, LEAST_BLOCK_WEIGHT,
};
use crate::sst::{table_entries, SstReader};
use vstd::bytes::*;
use vstd::prelude::*;
use vstd::string::*;

verus! {

pub const TYPE_VALUE: u8 = 1;

pub const TYPE_DELETION: u8 = 0;

/// A sequence number and a type packed into eight bytes. Only the lower 56
/// bits of the sequence number have room.
pub open spec fn packed(seq: u64, ty: u8) -> u64 {
    (seq % 0x100_0000_0000_0000 * 256 + ty) as u64
}

/// Makes the internal key of one version.
pub fn make_internal_key(user_key: &str, seq: u64, ty: u8) -> (r: Vec<u8>)
    ensures
        r@ == join_key(user_key.spec_bytes(), packed(seq, ty)),
{
    internal_key_of(user_key.as_bytes(), seq, ty)
}

pub fn internal_key_of(user_key: &[u8], seq: u64, ty: u8) -> (r: Vec<u8>)
    ensures
        r@ == join_key(user_key@, packed(seq, ty)),
{
    let wide: u64 = ty as u64;
    assert((seq << 8) | wide == seq % 0x100_0000_0000_0000 * 256 + wide) by (bit_vector)
        requires
            wide <= 0xff,
    ;
    let mut key = copy_bytes(user_key);
    append_bytes(&mut key, u64_to_le_bytes((seq << 8) | wide).as_slice());
    key
}

/// The order of pairs: by key, then by value.
pub open spec fn pair_before(a: Entry, b: Entry) -> bool {
    bytes_before(a.0, b.0) || a.0 == b.0 && bytes_before(a.1, b.1)
}

/// How many of some sorted pairs stay in front of `pair`.
pub open spec fn pair_place(pairs: Seq<Entry>, pair: Entry) -> int
    decreases pairs.len(),
{
    if pairs.len() == 0 {
        0
    } else if pair_before(pair, pairs.last()) {
        pair_place(pairs.drop_last(), pair)
    } else {
        pairs.len() as int
    }
}

/// Pairs in ascending order.
pub open spec fn sorted_pairs(pairs: Seq<Entry>) -> Seq<Entry>
    decreases pairs.len(),
{
    if pairs.len() == 0 {
        Seq::empty()
    } else {
        let before = sorted_pairs(pairs.drop_last());
        before.insert(pair_place(before, pairs.last()), pairs.last())
    }
}

/// Whether pairs ascend.
pub open spec fn pairs_ascend(pairs: Seq<Entry>) -> bool {
    forall|i: int, j: int|
        0 <= i < j < pairs.len() ==> !pair_before(#[trigger] pairs[j], #[trigger] pairs[i])
}

/// The order of pairs is a strict total order.
pub proof fn lemma_pair_order(a: Entry, b: Entry, c: Entry)
    ensures
        !pair_before(a, a),
        !(pair_before(a, b) && pair_before(b, a)),
        pair_before(a, b) || pair_before(b, a) || a == b,
        pair_before(a, b) && pair_before(b, c) ==> pair_before(a, c),
{
    lemma_bytes_order(a.0, b.0, c.0);
    lemma_bytes_order(a.1, b.1, c.1);
    lemma_bytes_order(b.0, a.0, c.0);
    lemma_bytes_order(b.1, a.1, c.1);
}

proof fn lemma_pair_place(pairs: Seq<Entry>, pair: Entry)
    requires
        pairs_ascend(pairs),
    ensures
        0 <= pair_place(pairs, pair) <= pairs.len(),
        forall|i: int|
            pair_place(pairs, pair) <= i < pairs.len() ==> pair_before(pair, #[trigger] pairs[i]),
        forall|i: int|
            0 <= i < pair_place(pairs, pair) ==> !pair_before(pair, #[trigger] pairs[i]),
    decreases pairs.len(),
{
    if pairs.len() > 0 {
        let last = pairs.last();
        if pair_before(pair, last) {
            lemma_pair_place(pairs.drop_last(), pair);
            assert forall|i: int| pair_place(pairs, pair) <= i < pairs.len() implies pair_before(
                pair,
                #[trigger] pairs[i],
            ) by {
                if i < pairs.len() - 1 {
                    assert(pairs.drop_last()[i] == pairs[i]);
                }
            }
            assert forall|i: int| 0 <= i < pair_place(pairs, pair) implies !pair_before(
                pair,
                #[trigger] pairs[i],
            ) by {
                assert(pairs.drop_last()[i] == pairs[i]);
            }
        } else {
            assert forall|i: int| 0 <= i < pairs.len() implies !pair_before(
                pair,
                #[trigger] pairs[i],
            ) by {
                if i < pairs.len() - 1 {
                    assert(!pair_before(last, pairs[i]));
                    lemma_pair_order(pair, pairs[i], last);
                    lemma_pair_order(pairs[i], last, pair);
                }
            }
        }
    }
}

/// Sorting puts pairs in ascending order, and neither drops nor adds one.
pub proof fn lemma_sorted_pairs(pairs: Seq<Entry>)
    ensures
        pairs_ascend(sorted_pairs(pairs)),
        sorted_pairs(pairs).to_multiset() == pairs.to_multiset(),
    decreases pairs.len(),
{
    broadcast use vstd::seq_lib::group_to_multiset_ensures;

    if pairs.len() > 0 {
        let last = pairs.last();
        let rest = sorted_pairs(pairs.drop_last());
        let at = pair_place(rest, last);
        lemma_sorted_pairs(pairs.drop_last());
        lemma_pair_place(rest, last);
        let sorted = rest.insert(at, last);
        assert forall|i: int, j: int| 0 <= i < j < sorted.len() implies !pair_before(
            #[trigger] sorted[j],
            #[trigger] sorted[i],
        ) by {
            let a = if i < at { i } else { i - 1 };
            let b = if j < at { j } else { j - 1 };
            if i == at {
                assert(pair_before(last, rest[b]));
                lemma_pair_order(last, rest[b], last);
            } else if j == at {
                assert(!pair_before(last, rest[a]));
            } else {
                assert(!pair_before(rest[b], rest[a]));
            }
        }
        assert(pairs =~= pairs.drop_last().push(last));
        vstd::seq_lib::to_multiset_insert(rest, at, last);
    }
}

/// Computes `pair_before`.
fn pair_less(a: &(Vec<u8>, Vec<u8>), b: &(Vec<u8>, Vec<u8>)) -> (r: bool)
    ensures
        r == pair_before((a.0@, a.1@), (b.0@, b.1@)),
{
    proof {
        lemma_bytes_order(a.0@, b.0@, a.0@);
    }
    if sorts_before(a.0.as_slice(), b.0.as_slice()) {
        true
    } else if sorts_before(b.0.as_slice(), a.0.as_slice()) {
        false
    } else {
        sorts_before(a.1.as_slice(), b.1.as_slice())
    }
}

/// Puts a pair where it belongs among sorted ones.
fn insert_pair(pairs: &mut Vec<(Vec<u8>, Vec<u8>)>, pair: (Vec<u8>, Vec<u8>))
    ensures
        entries_of(final(pairs)@) == entries_of(old(pairs)@).insert(
            pair_place(entries_of(old(pairs)@), (pair.0@, pair.1@)),
            (pair.0@, pair.1@),
        ),
{
    let ghost before = entries_of(pairs@);
    let ghost item = (pair.0@, pair.1@);
    let mut at: usize = pairs.len();
    assert(before.take(at as int) =~= before);
    while at > 0 && pair_less(&pair, &pairs[at - 1])
        invariant
            at <= pairs@.len(),
            before == entries_of(pairs@),
            item == (pair.0@, pair.1@),
            pair_place(before, item) == pair_place(before.take(at as int), item),
        decreases at,
    {
        assert(before.take(at as int).drop_last() =~= before.take(at - 1));
        at = at - 1;
    }
    assert(at > 0 ==> before.take(at as int).last() == (pairs@[at - 1].0@, pairs@[at - 1].1@));
    pairs.insert(at, pair);
    assert(entries_of(pairs@) =~= before.insert(at as int, item));
}

/// Collects the user keys and values of a table in ascending order.
struct PairCollector {
    pairs: Vec<(Vec<u8>, Vec<u8>)>,
    seen: Ghost<Seq<Entry>>,
}

impl EntryVisitor for PairCollector {
    type State = Seq<Entry>;

    closed spec fn ready(&self) -> bool {
        all_internal(self.seen@) ==> entries_of(self.pairs@) == sorted_pairs(
            user_entries(self.seen@),
        )
    }

    closed spec fn state(&self) -> Seq<Entry> {
        self.seen@
    }

    closed spec fn after(state: Seq<Entry>, key: Seq<u8>, value: Seq<u8>) -> Seq<Entry> {
        state.push((key, value))
    }

    fn visit(&mut self, key: &[u8], value: &[u8]) {
        let ghost before = self.seen@;
        let ghost entry = (key@, value@);
        if let Ok(ik) = split(key) {
            assert(ik.user_key@ == user_part(key@));
            insert_pair(&mut self.pairs, (copy_bytes(ik.user_key), copy_bytes(value)));
        }
        proof {
            self.seen@ = before.push(entry);
            if all_internal(before.push(entry)) {
                assert(is_internal_key(before.push(entry)[before.len() as int].0));
                assert forall|i: int| 0 <= i < before.len() implies is_internal_key(
                    #[trigger] before[i].0,
                ) by {
                    assert(is_internal_key(before.push(entry)[i].0));
                }
                assert(user_entries(before.push(entry)).drop_last() =~= user_entries(before));
            }
        }
    }
}

proof fn lemma_collected(state: Seq<Entry>, entries: Seq<Entry>)
    ensures
        visit_all::<PairCollector>(state, entries) == state + entries,
    decreases entries.len(),
{
    if entries.len() == 0 {
        assert(state + entries =~= state);
    } else {
        lemma_collected(state, entries.drop_last());
        assert((state + entries.drop_last()).push(entries.last()) =~= state + entries);
        assert(entries.last() == (entries.last().0, entries.last().1));
    }
}

/// Whether a file is a table as it is written here: without a fault, its index
/// named once by the metaindex, and all of its keys internal keys.
pub open spec fn is_decodable(file: Seq<u8>) -> bool {
    &&& names_index_once(file)
    &&& table_entries(file).1 is None
    &&& all_internal(table_entries(file).0)
}

/// The user keys and values of a table, in ascending order.
pub fn decode_sst_entries(bytes: &[u8]) -> (r: Vec<(Vec<u8>, Vec<u8>)>)
    requires
        is_decodable(bytes@),
    ensures
        entries_of(r@) == sorted_pairs(user_entries(table_entries(bytes@).0)),
{
    let mut collector = PairCollector { pairs: Vec::new(), seen: Ghost(Seq::empty()) };
    proof {
        assert(user_entries(Seq::empty()) =~= Seq::<Entry>::empty());
        assert(entries_of(collector.pairs@) =~= Seq::<Entry>::empty());
        lemma_collected(Seq::empty(), table_entries(bytes@).0);
        assert(Seq::<Entry>::empty() + table_entries(bytes@).0 =~= table_entries(bytes@).0);
    }
    if let Ok(reader) = SstReader::open(bytes) {
        let done = reader.for_each_entry(bytes, &mut collector);
        assert(done is Ok);
    }
    collector.pairs
}

/// The entries of lists of owned pairs.
pub open spec fn lists_of(lists: Seq<Vec<(Vec<u8>, Vec<u8>)>>) -> Seq<Seq<Entry>> {
    Seq::new(lists.len(), |i: int| entries_of(lists[i]@))
}

/// Whether lists of entries can be compacted to a table that can be read back:
/// each fits a source, memory can hold what comes out, and its data blocks can
/// be counted in 32 bits.
pub open spec fn fit_table(inputs: Seq<Seq<Entry>>) -> bool {
    &&& forall|i: int| 0 <= i < inputs.len() ==> fits_arena(#[trigger] inputs[i])
    &&& 4 * inputs.len() <= usize::MAX
    &&& total_weight(inputs) + 8 <= usize::MAX
    &&& total_weight(inputs) < LEAST_BLOCK_WEIGHT * u32::MAX
}

/// Makes a source of a list of entries.
fn source_of(entries: &Vec<(Vec<u8>, Vec<u8>)>) -> (r: ArenaSource)
    requires
        fits_arena(entries_of(entries@)),
    ensures
        r.inv(),
        r.remaining() == entries_of(entries@),
{
    let ghost all = entries_of(entries@);
    let mut builder = ArenaSourceBuilder::new();
    let mut i: usize = 0;
    assert(all.take(0) =~= Seq::<Entry>::empty());
    while i < entries.len()
        invariant
            i <= entries@.len(),
            all == entries_of(entries@),
            fits_arena(all),
            builder.inv(),
            builder.entries() == all.take(i as int),
        decreases entries@.len() - i,
    {
        proof {
            lemma_bytes_monotonic(all, i + 1);
            lemma_bytes_push(all.take(i as int), all[i as int]);
            assert(all.take(i + 1) =~= all.take(i as int).push(all[i as int]));
        }
        builder.push(entries[i].0.as_slice(), entries[i].1.as_slice());
        i = i + 1;
    }
    assert(all.take(i as int) =~= all);
    builder.build()
}

/// What reading the compaction of the inputs gives.
pub open spec fn compactor_output(inputs: Seq<Seq<Entry>>) -> Seq<Entry> {
    sorted_pairs(user_entries(bottommost(in_order(inputs))))
}

/// Compacts lists of entries, each sorted, and reads the table back: the user
/// keys and values, in ascending order.
pub fn run_compactor(per_source: &[Vec<(Vec<u8>, Vec<u8>)>]) -> (r: Vec<(Vec<u8>, Vec<u8>)>)
    requires
        mergeable::<InternalKeyComparator>(lists_of(per_source@)),
        fit_table(lists_of(per_source@)),
    ensures
        entries_of(r@) == compactor_output(lists_of(per_source@)),
{
    let ghost inputs = lists_of(per_source@);
    let mut sources: Vec<ArenaSource> = Vec::with_capacity(per_source.len());
    let mut i: usize = 0;
    while i < per_source.len()
        invariant
            i <= per_source@.len(),
            inputs == lists_of(per_source@),
            fit_table(inputs),
            sources@.len() == i,
            sources_inv(sources@),
            forall|j: int| 0 <= j < i ==> (#[trigger] sources@[j]).remaining() == inputs[j],
        decreases per_source@.len() - i,
    {
        assert(fits_arena(inputs[i as int]));
        let ghost before = sources@;
        sources.push(source_of(&per_source[i]));
        assert forall|j: int| 0 <= j < sources@.len() implies (#[trigger] sources@[j]).inv() by {
            if j < i {
                assert(before[j].inv());
            }
        }
        i = i + 1;
    }
    assert(inputs_of(sources@) =~= inputs);
    let mut builder_options = SstBuilderOptions::default();
    builder_options.base_context_checksum = 0x1357_9BDF;
    let opts = CompactionOptions { sst_builder: builder_options };
    let ghost table = opts.sst_builder@;
    match compact(sources, &opts) {
        Ok(file) => {
            proof {
                assert(file.len() == file@.len());
                lemma_compacted_reads_back(inputs, table, file@);
            }
            decode_sst_entries(file.as_slice())
        },
        Err(_) => Vec::new(),
    }
}

/// A compaction can be read back: what comes out is what was kept.
pub proof fn lemma_compacted_reads_back(
    inputs: Seq<Seq<Entry>>,
    opts: TableOptions,
    file: Seq<u8>,
)
    requires
        mergeable::<InternalKeyComparator>(inputs),
        fit_table(inputs),
        file.len() <= usize::MAX,
        opts.external_sst_global_seqno is None,
        compacts_to::<BottommostStrategy>((), inputs, opts, file, ()),
    ensures
        is_decodable(file),
        table_entries(file).0 == bottommost(in_order(inputs)),
{
    let merged = in_order(inputs);
    lemma_tournament_merge::<InternalKeyComparator>(inputs);
    lemma_merge_weight(inputs, merged);
    lemma_surviving::<BottommostStrategy>((), merged);
    lemma_group_count(bottommost(merged));
    assert forall|i: int| 0 <= i < inputs.len() implies lengths_fit(#[trigger] inputs[i]) by {
        assert(fits_arena(inputs[i]));
        lemma_fits_arena(inputs[i]);
    }
    lemma_compaction_reads_back(inputs, opts, file);
    lemma_index_named_once(bottommost(merged), opts);
}

/// Pairs that ascend already are not moved.
proof fn lemma_sorted_already(pairs: Seq<Entry>)
    requires
        strictly_ascending(pairs),
    ensures
        sorted_pairs(pairs) == pairs,
    decreases pairs.len(),
{
    if pairs.len() > 0 {
        let front = pairs.drop_last();
        let n = front.len() as int;
        assert forall|i: int, j: int| 0 <= i < j < front.len() implies bytes_before(
            #[trigger] front[i].0,
            #[trigger] front[j].0,
        ) by {
            assert(bytes_before(pairs[i].0, pairs[j].0));
        }
        lemma_sorted_already(front);
        if n > 0 {
            assert(bytes_before(pairs[n - 1].0, pairs[n].0));
            lemma_bytes_order(pairs[n - 1].0, pairs[n].0, pairs[n - 1].0);
        }
        assert(front.insert(n, pairs.last()) =~= pairs);
    }
}

/// The two ways to compact agree: on sorted inputs in which newest versions of
/// one user key do the same, reading the compacted table gives what the plain
/// way gives.
pub proof fn lemma_both_ways_agree(inputs: Seq<Seq<Entry>>, plain: Seq<Entry>)
    requires
        all_comparable::<InternalKeyComparator>(inputs),
        all_ascending::<InternalKeyComparator>(inputs),
        newest_agree(all_entries(inputs)),
        is_plain_compaction(flat(inputs), plain),
    ensures
        compactor_output(inputs) == plain,
{
    lemma_tournament_merge::<InternalKeyComparator>(inputs);
    lemma_compaction_matches_plain(inputs, in_order(inputs), plain);
    lemma_sorted_already(plain);
}

/// A key that is made of a user key, a sequence number and a type: the user key,
/// then the type, then the lower seven bytes of the sequence number.
pub proof fn lemma_made_key(user_key: Seq<u8>, seq: u64, ty: u8)
    ensures
        ({
            let key = join_key(user_key, packed(seq, ty));
            &&& key.len() == user_key.len() + 8
            &&& key.take(user_key.len() as int) == user_key
            &&& key[user_key.len() as int] == ty
            &&& sequence_part(key) == seq as int % 0x100_0000_0000_0000
            &&& type_byte_part(key) == ty
        }),
{
    let key = join_key(user_key, packed(seq, ty));
    lemma_join_key(user_key, packed(seq, ty));
    vstd::bytes::lemma_auto_spec_u64_to_from_le_bytes();
    lemma_key_bytes(key);
    assert(key.take(user_key.len() as int) =~= user_key);
}

/// Pairs are ordered by the bytes of their keys, then by those of their values.
pub proof fn lemma_pairs_by_bytes(a: Entry, b: Entry)
    ensures
        bytes_before(a.0, b.0) ==> pair_before(a, b),
        a.0 == b.0 && bytes_before(a.1, b.1) ==> pair_before(a, b),
        bytes_before(b.0, a.0) ==> !pair_before(a, b),
        a.0 == b.0 && !bytes_before(a.1, b.1) ==> !pair_before(a, b),
{
    lemma_bytes_order(a.0, b.0, a.0);
}

} // verus!
