//! What a read gives back of a write, for whole tables.

use crate::compaction::lemma_surviving;
use crate::compaction::strategy::BottommostStrategy;
use crate::compaction::walk::bottommost;
use crate::entry::{
    flat, key_bytes, lemma_bytes_of_one, lemma_bytes_push, value_bytes, weight, Entry,
};
use crate::error::FormatError;
use crate::format::block::{
    block_entries, lemma_stored_block_round_trip, parsed, stored_block,
};
use crate::format::block_builder::{
    index_entries_fit, index_piece, index_pieces, joined, lemma_data_block_len,
    lemma_data_block_round_trip, lemma_data_block_size, lemma_index_block_len,
    lemma_index_block_round_trip, lemma_index_block_size, lengths_fit,
};
use crate::format::footer::{
    footer_at, footer_bytes, handle_at, lemma_footer_len, lemma_footer_round_trip, BlockHandle,
    Footer, BLOCK_BASED_TABLE_MAGIC, BLOCK_TRAILER_SIZE, FOOTER_TAIL_LEN,
};
use crate::format::index::handles_of;
use crate::format::internal_key::{
    is_internal_key, lemma_join_key, packed_part, sequence_part, type_byte_part, user_part,
};
use crate::format::properties::{
    handle_bytes, lemma_properties_bounded, meta_entries, property_list, sorted_by_name,
    INDEX_BLOCK_NAME, PROPERTIES_BLOCK_NAME,
};
use crate::format::sst_builder::{
    block_groups, data_section, dealt_out, handle_of, lemma_metaindex_len, table_block, table_index,
    table_index_block, table_metaindex, table_of, table_parts, table_properties, with_block,
    written_entries,
    TableOptions, DATA_BLOCK_RESTART_INTERVAL, FORMAT_VERSION, INDEX_BLOCK_RESTART_INTERVAL,
    TARGET_BLOCK_SIZE,
};
use crate::format::varint::{lemma_varint64_round_trip, lemma_varint_len, varint};
use crate::merge::cmp::BytewiseComparator;
use crate::merge::sort::place_of;
use crate::merge::source::{all_internal, user_keys_ascend};
use crate::oracle::{lemma_bottommost_ascends, strictly_ascending, user_entries};
use crate::sst::{
    block_request, data_handles_of, file_block, file_block_entries, file_entries, first_named,
    meta_handle, named_once, opened, table_entries, BlockParts,
};
use vstd::bytes::*;
use vstd::prelude::*;
use vstd::string::*;
use vstd::utf8::*;

verus! {

/// Dealing entries out to blocks neither drops, adds nor moves one. No block is
/// empty, and none has more entries than bytes fit.
pub proof fn lemma_block_groups(entries: Seq<Entry>)
    ensures
        flat(block_groups(entries)) == entries,
        forall|i: int|
            0 <= i < block_groups(entries).len() ==> 0 < (
            #[trigger] block_groups(entries)[i]).len() <= TARGET_BLOCK_SIZE,
{
    lemma_dealt_out(entries);
    let (closed, open) = dealt_out(entries);
    if open.len() == 0 {
        assert(flat(closed) + open =~= flat(closed));
    } else {
        assert(closed.push(open).drop_last() =~= closed);
    }
}

proof fn lemma_dealt_out(entries: Seq<Entry>)
    ensures
        flat(dealt_out(entries).0) + dealt_out(entries).1 == entries,
        dealt_out(entries).1.len() < TARGET_BLOCK_SIZE,
        forall|i: int|
            0 <= i < dealt_out(entries).0.len() ==> 0 < (
            #[trigger] dealt_out(entries).0[i]).len() <= TARGET_BLOCK_SIZE,
    decreases entries.len(),
{
    if entries.len() == 0 {
        assert(flat(dealt_out(entries).0) + dealt_out(entries).1 =~= entries);
    } else {
        let before = entries.drop_last();
        lemma_dealt_out(before);
        let (closed, open) = dealt_out(before);
        let grown = open.push(entries.last());
        lemma_data_block_size(DATA_BLOCK_RESTART_INTERVAL as int, grown);
        assert(before.push(entries.last()) =~= entries);
        assert(flat(closed) + grown =~= (flat(closed) + open).push(entries.last()));
        if table_block(grown).len() >= TARGET_BLOCK_SIZE {
            assert(closed.push(grown).drop_last() =~= closed);
            assert((flat(closed) + grown) + Seq::<Entry>::empty() =~= entries);
        }
    }
}

/// The entries of a group are found in the whole.
proof fn lemma_flat_index(groups: Seq<Seq<Entry>>, i: int, j: int)
    requires
        0 <= i < groups.len(),
        0 <= j < groups[i].len(),
    ensures
        0 <= flat(groups.take(i)).len() + j < flat(groups).len(),
        flat(groups)[flat(groups.take(i)).len() + j] == groups[i][j],
    decreases groups.len(),
{
    let n = groups.len() - 1;
    if i < n {
        lemma_flat_index(groups.drop_last(), i, j);
        assert(groups.drop_last().take(i) =~= groups.take(i));
    } else {
        assert(groups.take(i) =~= groups.drop_last());
    }
}

/// The last key of every data block leads to it in the index. Where the
/// entries ascend, no key of a block is behind that key and no key of a later
/// block is before it, so a search by bisection finds the right block.
pub proof fn lemma_separators_cover_blocks(
    entries: Seq<Entry>,
    opts: TableOptions,
    before: spec_fn(Seq<u8>, Seq<u8>) -> bool,
    i: int,
    k: int,
    j: int,
)
    requires
        forall|x: Seq<u8>| !#[trigger] before(x, x),
        forall|a: int, b: int|
            0 <= a < b < entries.len() ==> !before(
                #[trigger] entries[b].0,
                #[trigger] entries[a].0,
            ),
        0 <= i <= k < block_groups(entries).len(),
        0 <= j < block_groups(entries)[k].len(),
    ensures
        ({
            let groups = block_groups(entries);
            let separator = table_index(groups, opts)[i].0;
            &&& separator == groups[i].last().0
            &&& i == k ==> !before(separator, groups[k][j].0)
            &&& i < k ==> !before(groups[k][j].0, separator)
        }),
{
    let groups = block_groups(entries);
    lemma_block_groups(entries);
    let last = groups[i].len() - 1;
    lemma_flat_index(groups, i, last);
    lemma_flat_index(groups, k, j);
    if i < k {
        lemma_flat_prefix(groups.take(k), i + 1);
        assert(groups.take(k).take(i + 1) =~= groups.take(i + 1));
        assert(groups.take(i + 1).drop_last() =~= groups.take(i));
    }
}

/// A search for a key that is in the table ends at the block that holds it:
/// that is the first whose separator does not come before the key.
pub proof fn lemma_search_finds_block(
    entries: Seq<Entry>,
    opts: TableOptions,
    before: spec_fn(Seq<u8>, Seq<u8>) -> bool,
    k: int,
    j: int,
)
    requires
        forall|x: Seq<u8>, y: Seq<u8>| #[trigger] before(x, y) ==> !before(y, x),
        forall|a: int, b: int|
            0 <= a < b < entries.len() ==> before(#[trigger] entries[a].0, #[trigger] entries[b].0),
        0 <= k < block_groups(entries).len(),
        0 <= j < block_groups(entries)[k].len(),
    ensures
        ({
            let groups = block_groups(entries);
            let index = table_index(groups, opts);
            &&& !before(index[k].0, groups[k][j].0)
            &&& forall|i: int| 0 <= i < k ==> before(#[trigger] index[i].0, groups[k][j].0)
        }),
{
    let groups = block_groups(entries);
    let index = table_index(groups, opts);
    lemma_block_groups(entries);
    lemma_flat_index(groups, k, j);
    lemma_flat_index(groups, k, groups[k].len() - 1);
    let target = groups[k][j].0;
    let start = flat(groups.take(k)).len();
    assert(entries[start + j].0 == target);
    if before(index[k].0, target) {
        assert(!before(target, target));
    }
    assert forall|i: int| 0 <= i < k implies before(#[trigger] index[i].0, target) by {
        let last = groups[i].len() - 1;
        lemma_flat_index(groups, i, last);
        lemma_flat_prefix(groups.take(k), i + 1);
        assert(groups.take(k).take(i + 1) =~= groups.take(i + 1));
        assert(groups.take(i + 1).drop_last() =~= groups.take(i));
        assert(entries[flat(groups.take(i)).len() + last].0 == index[i].0);
    }
}

proof fn lemma_flat_prefix(groups: Seq<Seq<Entry>>, k: int)
    requires
        0 <= k <= groups.len(),
    ensures
        flat(groups.take(k)).len() <= flat(groups).len(),
    decreases groups.len(),
{
    if k == groups.len() {
        assert(groups.take(k) =~= groups);
    } else {
        lemma_flat_prefix(groups.drop_last(), k);
        assert(groups.drop_last().take(k) =~= groups.take(k));
    }
}

/// Whether `file` starts with `start`.
pub open spec fn starts_with(file: Seq<u8>, start: Seq<u8>) -> bool {
    start.len() <= file.len() && file.take(start.len() as int) == start
}

proof fn lemma_starts_with(file: Seq<u8>, start: Seq<u8>, shorter: Seq<u8>)
    requires
        starts_with(file, start),
        starts_with(start, shorter),
    ensures
        starts_with(file, shorter),
{
    assert(file.take(shorter.len() as int) =~= start.take(shorter.len() as int));
}

proof fn lemma_with_block(file: Seq<u8>, contents: Seq<u8>, opts: TableOptions)
    ensures
        with_block(file, contents, opts).len() == file.len() + contents.len() + BLOCK_TRAILER_SIZE,
        starts_with(with_block(file, contents, opts), file),
{
    lemma_auto_spec_u32_to_from_le_bytes();
    assert(with_block(file, contents, opts).take(file.len() as int) =~= file);
}

/// A block that was put into a file is read back from its handle.
proof fn lemma_block_found(
    file: Seq<u8>,
    front: Seq<u8>,
    contents: Seq<u8>,
    opts: TableOptions,
    footer: Footer,
)
    requires
        file.len() <= usize::MAX,
        starts_with(file, with_block(front, contents, opts)),
        footer.checksum_type == opts.checksum_type,
        footer.base_context_checksum == opts.base_context_checksum,
    ensures
        file_block(file, footer, handle_of(front, contents)) == parsed(contents),
        block_request(handle_of(front, contents), file.len() as u64) is Ok,
{
    lemma_with_block(front, contents, opts);
    let whole = with_block(front, contents, opts);
    let handle = handle_of(front, contents);
    let stored = stored_block(
        contents,
        handle.offset,
        opts.checksum_type,
        opts.base_context_checksum,
    );
    let end = front.len() + contents.len() + BLOCK_TRAILER_SIZE;
    assert(file.subrange(front.len() as int, end) =~= file.take(whole.len() as int).subrange(
        front.len() as int,
        end,
    ));
    assert(whole.subrange(front.len() as int, end) =~= stored);
    lemma_stored_block_round_trip(
        contents,
        handle,
        opts.checksum_type,
        opts.base_context_checksum,
    );
}

/// The bytes of a handle are read back.
proof fn lemma_handle_bytes(handle: BlockHandle)
    ensures
        handle_at(handle_bytes(handle), 0) == Some(
            (handle, handle_bytes(handle).len() as int),
        ),
{
    let bytes = handle_bytes(handle);
    let a = varint(handle.offset as nat);
    let b = varint(handle.size as nat);
    assert(bytes.subrange(0, a.len() as int) =~= a);
    assert(bytes.subrange(a.len() as int, a.len() + b.len() as int) =~= b);
    lemma_varint64_round_trip(bytes, 0, handle.offset);
    lemma_varint64_round_trip(bytes, a.len() as int, handle.size);
}

/// What was put into the metaindex of a table is found there by its name.
#[verifier::rlimit(50)]
pub proof fn lemma_metaindex_round_trip(properties: BlockHandle, index: BlockHandle)
    ensures
        ({
            let metaindex = parsed(table_metaindex(properties, index));
            &&& metaindex is Ok
            &&& meta_handle(metaindex->Ok_0.0, INDEX_BLOCK_NAME.spec_bytes()) == Ok::<
                Option<BlockHandle>,
                FormatError,
            >(Some(index))
            &&& meta_handle(metaindex->Ok_0.0, PROPERTIES_BLOCK_NAME.spec_bytes()) == Ok::<
                Option<BlockHandle>,
                FormatError,
            >(Some(properties))
            &&& named_once(block_entries(metaindex->Ok_0.0).0, INDEX_BLOCK_NAME.spec_bytes())
        }),
{
    let named = seq![(PROPERTIES_BLOCK_NAME, properties), (INDEX_BLOCK_NAME, index)];
    let a = (PROPERTIES_BLOCK_NAME.spec_bytes(), handle_bytes(properties));
    let b = (INDEX_BLOCK_NAME.spec_bytes(), handle_bytes(index));
    let entries = meta_entries(named);
    let sorted = sorted_by_name(entries);
    assert(entries =~= seq![a, b]);
    lemma_meta_names();
    lemma_varint_len(properties.offset);
    lemma_varint_len(properties.size);
    lemma_varint_len(index.offset);
    lemma_varint_len(index.size);
    lemma_handle_bytes(properties);
    lemma_handle_bytes(index);
    lemma_two_sorted(a, b);
    assert(lengths_fit(sorted));
    lemma_data_block_round_trip(1, sorted);
    lemma_two_named(sorted, a, b);
    lemma_two_named(sorted, b, a);
}

/// The names of the blocks that a table has besides data blocks.
proof fn lemma_meta_names()
    ensures
        PROPERTIES_BLOCK_NAME.spec_bytes().len() == 18,
        INDEX_BLOCK_NAME.spec_bytes().len() == 13,
{
    reveal_strlit("rocksdb.properties");
    reveal_strlit("rocksdb.index");
    assert(PROPERTIES_BLOCK_NAME.is_ascii());
    assert(INDEX_BLOCK_NAME.is_ascii());
}

/// Two entries are sorted into one of two orders.
proof fn lemma_two_sorted(a: Entry, b: Entry)
    ensures
        sorted_by_name(seq![a, b]) == seq![a, b] || sorted_by_name(seq![a, b]) == seq![b, a],
{
    let entries = seq![a, b];
    reveal_with_fuel(place_of::<BytewiseComparator>, 3);
    assert(entries.drop_last() =~= seq![a]);
    assert(seq![a].drop_last() =~= Seq::<Entry>::empty());
    assert(sorted_by_name(Seq::<Entry>::empty()) =~= Seq::<Entry>::empty());
    assert(sorted_by_name(seq![a]) =~= Seq::<Entry>::empty().insert(0, a));
    assert(sorted_by_name(seq![a]) =~= seq![a]);
    assert(sorted_by_name(entries) =~= seq![a, b] || sorted_by_name(entries) =~= seq![b, a]);
}

/// Of two entries with different names each is found by its own.
proof fn lemma_two_named(entries: Seq<Entry>, a: Entry, b: Entry)
    requires
        entries == seq![a, b] || entries == seq![b, a],
        a.0 != b.0,
        handle_at(a.1, 0) is Some,
    ensures
        first_named(entries, a.0) == Some((handle_at(a.1, 0)->0).0),
{
    reveal_with_fuel(first_named, 3);
    assert(entries.drop_last().drop_last() =~= Seq::<Entry>::empty());
    assert(entries.drop_last() =~= seq![entries[0]]);
}

/// The entries of the data blocks are read back, block by block.
proof fn lemma_groups_read_back(
    file: Seq<u8>,
    groups: Seq<Seq<Entry>>,
    opts: TableOptions,
    footer: Footer,
)
    requires
        file.len() <= usize::MAX,
        starts_with(file, data_section(groups, opts)),
        footer.checksum_type == opts.checksum_type,
        footer.base_context_checksum == opts.base_context_checksum,
        forall|i: int| 0 <= i < groups.len() ==> lengths_fit(#[trigger] groups[i]),
        forall|i: int|
            0 <= i < groups.len() ==> (#[trigger] groups[i]).len() <= TARGET_BLOCK_SIZE,
    ensures
        file_entries(file, footer, handles_of(table_index(groups, opts))) == (
            flat(groups),
            None::<FormatError>,
        ),
    decreases groups.len(),
{
    let handles = handles_of(table_index(groups, opts));
    if groups.len() > 0 {
        let before = groups.drop_last();
        let group = groups.last();
        let front = data_section(before, opts);
        let contents = table_block(group);
        lemma_with_block(front, contents, opts);
        lemma_starts_with(file, data_section(groups, opts), front);
        assert forall|i: int| 0 <= i < before.len() implies lengths_fit(#[trigger] before[i]) by {
            assert(before[i] == groups[i]);
        }
        lemma_groups_read_back(file, before, opts, footer);
        assert(handles.drop_last() =~= handles_of(table_index(before, opts))) by {
            assert forall|i: int| 0 <= i < before.len() implies groups.take(i) == before.take(i) by {
                assert(groups.take(i) =~= before.take(i));
            }
        }
        assert(groups.take(before.len() as int) =~= before);
        assert(handles.last() == handle_of(front, contents));
        lemma_block_found(file, front, contents, opts, footer);
        assert(lengths_fit(groups[groups.len() - 1]));
        lemma_data_block_round_trip(DATA_BLOCK_RESTART_INTERVAL as int, group);
    }
}

/// Whether a table can be read back: the lengths of its keys and values and the
/// number of its data blocks fit 32 bits, and the file fits into memory.
pub open spec fn readable(entries: Seq<Entry>, opts: TableOptions) -> bool {
    &&& lengths_fit(entries)
    &&& block_groups(entries).len() <= u32::MAX
    &&& table_of(entries, opts).len() <= usize::MAX
}

/// The footer of a file whose metaindex block comes last.
pub open spec fn footer_behind(front: Seq<u8>, metaindex: Seq<u8>, opts: TableOptions) -> Footer {
    Footer {
        table_magic_number: BLOCK_BASED_TABLE_MAGIC,
        format_version: FORMAT_VERSION,
        checksum_type: opts.checksum_type,
        metaindex_handle: handle_of(front, metaindex),
        index_handle: None,
        block_trailer_size: BLOCK_TRAILER_SIZE,
        base_context_checksum: opts.base_context_checksum,
    }
}

/// The footer of a file is read back.
proof fn lemma_footer_found(
    file: Seq<u8>,
    front: Seq<u8>,
    metaindex: Seq<u8>,
    opts: TableOptions,
)
    requires
        file.len() <= usize::MAX,
        metaindex.len() <= u32::MAX,
        file == with_block(front, metaindex, opts) + footer_bytes(
            FORMAT_VERSION,
            opts.checksum_type,
            metaindex.len() as u32,
            opts.base_context_checksum,
            with_block(front, metaindex, opts).len() as u64,
        ),
    ensures
        file.len() >= FOOTER_TAIL_LEN,
        starts_with(file, with_block(front, metaindex, opts)),
        starts_with(file, front),
        footer_at(file.skip(file.len() - FOOTER_TAIL_LEN), file.len() as u64) == Ok::<
            Footer,
            FormatError,
        >(footer_behind(front, metaindex, opts)),
{
    let body = with_block(front, metaindex, opts);
    let handle = handle_of(front, metaindex);
    lemma_with_block(front, metaindex, opts);
    lemma_footer_len(
        FORMAT_VERSION,
        opts.checksum_type,
        metaindex.len() as u32,
        opts.base_context_checksum,
        body.len() as u64,
    );
    lemma_footer_round_trip(
        FORMAT_VERSION,
        opts.checksum_type,
        handle,
        opts.base_context_checksum,
    );
    assert(file.take(body.len() as int) =~= body);
    lemma_starts_with(file, body, front);
    assert(file.skip(file.len() - FOOTER_TAIL_LEN) =~= footer_bytes(
        FORMAT_VERSION,
        opts.checksum_type,
        metaindex.len() as u32,
        opts.base_context_checksum,
        body.len() as u64,
    ));
}

/// The footer of a table.
pub open spec fn table_footer(entries: Seq<Entry>, opts: TableOptions) -> Footer {
    let parts = table_parts(entries, opts);
    footer_behind(parts.with_properties, parts.metaindex, opts)
}

/// The parts follow each other in the file.
#[verifier::rlimit(50)]
proof fn lemma_table_layout(entries: Seq<Entry>, opts: TableOptions)
    requires
        table_of(entries, opts).len() <= usize::MAX,
    ensures
        ({
            let file = table_of(entries, opts);
            let parts = table_parts(entries, opts);
            &&& starts_with(file, with_block(parts.with_properties, parts.metaindex, opts))
            &&& starts_with(file, parts.with_properties)
            &&& starts_with(file, parts.with_index)
            &&& starts_with(file, parts.data)
            &&& file.len() >= FOOTER_TAIL_LEN
            &&& footer_at(file.skip(file.len() - FOOTER_TAIL_LEN), file.len() as u64) == Ok::<
                Footer,
                FormatError,
            >(table_footer(entries, opts))
        }),
{
    reveal(table_of);
    let file = table_of(entries, opts);
    let parts = table_parts(entries, opts);
    lemma_metaindex_len(
        handle_of(parts.with_index, parts.properties),
        handle_of(parts.data, parts.index),
    );
    lemma_footer_found(file, parts.with_properties, parts.metaindex, opts);
    lemma_with_block(parts.data, parts.index, opts);
    lemma_with_block(parts.with_index, parts.properties, opts);
    lemma_starts_with(file, parts.with_properties, parts.with_index);
    lemma_starts_with(file, parts.with_index, parts.data);
}

/// What `opened` gives where every step succeeds.
proof fn lemma_opened(
    file: Seq<u8>,
    footer: Footer,
    metaindex: BlockParts,
    handle: BlockHandle,
    index: BlockParts,
)
    requires
        file.len() >= FOOTER_TAIL_LEN,
        footer_at(file.skip(file.len() - FOOTER_TAIL_LEN), file.len() as u64) == Ok::<
            Footer,
            FormatError,
        >(footer),
        file_block(file, footer, footer.metaindex_handle) == Ok::<BlockParts, FormatError>(
            metaindex,
        ),
        footer.index_handle is None,
        meta_handle(metaindex.0, INDEX_BLOCK_NAME.spec_bytes()) == Ok::<
            Option<BlockHandle>,
            FormatError,
        >(Some(handle)),
        file_block(file, footer, handle) == Ok::<BlockParts, FormatError>(index),
    ensures
        opened(file) == Ok::<(Footer, BlockParts, BlockParts), FormatError>(
            (footer, metaindex, index),
        ),
{
}

/// A table opens to its footer, its metaindex block and its index block.
#[verifier::rlimit(50)]
pub proof fn lemma_table_opens(entries: Seq<Entry>, opts: TableOptions)
    requires
        readable(entries, opts),
    ensures
        ({
            let parts = table_parts(entries, opts);
            &&& parsed(parts.metaindex) is Ok
            &&& parsed(parts.index) is Ok
            &&& opened(table_of(entries, opts)) == Ok::<
                (Footer, BlockParts, BlockParts),
                FormatError,
            >(
                (
                    table_footer(entries, opts),
                    parsed(parts.metaindex)->Ok_0,
                    parsed(parts.index)->Ok_0,
                ),
            )
        }),
{
    let file = table_of(entries, opts);
    let parts = table_parts(entries, opts);
    let footer = table_footer(entries, opts);
    lemma_table_layout(entries, opts);
    lemma_block_found(file, parts.with_properties, parts.metaindex, opts, footer);
    lemma_metaindex_round_trip(
        handle_of(parts.with_index, parts.properties),
        handle_of(parts.data, parts.index),
    );
    lemma_block_found(file, parts.data, parts.index, opts, footer);
    lemma_index_readable(entries, opts);
    lemma_opened(
        file,
        footer,
        parsed(parts.metaindex)->Ok_0,
        handle_of(parts.data, parts.index),
        parsed(parts.index)->Ok_0,
    );
}

/// The index block of a table is read back.
#[verifier::rlimit(50)]
proof fn lemma_index_readable(entries: Seq<Entry>, opts: TableOptions)
    requires
        readable(entries, opts),
    ensures
        ({
            let groups = block_groups(entries);
            parsed(table_index_block(groups, opts)) matches Ok(parts) && data_handles_of(parts)
                == Ok::<Seq<BlockHandle>, FormatError>(handles_of(table_index(groups, opts)))
        }),
        forall|i: int|
            0 <= i < block_groups(entries).len() ==> lengths_fit(
                #[trigger] block_groups(entries)[i],
            ),
{
    let groups = block_groups(entries);
    let separators = table_index(groups, opts);
    lemma_block_groups(entries);
    assert forall|i: int| 0 <= i < groups.len() implies lengths_fit(#[trigger] groups[i]) by {
        assert forall|j: int| 0 <= j < groups[i].len() implies #[trigger] groups[i][j].0.len()
            <= u32::MAX && groups[i][j].1.len() <= u32::MAX by {
            lemma_flat_index(groups, i, j);
            assert(entries[flat(groups.take(i)).len() + j].0.len() <= u32::MAX);
        }
    }
    assert forall|i: int| 0 <= i < separators.len() implies #[trigger] separators[i].0.len()
        <= u32::MAX by {
        assert(lengths_fit(groups[i]));
        assert(groups[i][groups[i].len() - 1].0.len() <= u32::MAX);
    }
    assert(index_entries_fit(INDEX_BLOCK_RESTART_INTERVAL as int, separators));
    lemma_index_block_size(INDEX_BLOCK_RESTART_INTERVAL as int, separators);
    lemma_index_block_round_trip(INDEX_BLOCK_RESTART_INTERVAL as int, separators);
}

/// What a read gives back of a write: the entries that a table was made of
/// come out of it in order, whatever the options.
pub proof fn lemma_table_round_trip(entries: Seq<Entry>, opts: TableOptions)
    requires
        readable(entries, opts),
    ensures
        table_entries(table_of(entries, opts)) == (entries, None::<FormatError>),
{
    lemma_table_opens(entries, opts);
    lemma_table_layout(entries, opts);
    lemma_index_readable(entries, opts);
    lemma_block_groups(entries);
    lemma_groups_read_back(
        table_of(entries, opts),
        block_groups(entries),
        opts,
        table_footer(entries, opts),
    );
}

/// Whether the metaindex of a file, and nothing but it, names the index, and
/// names it once.
pub open spec fn names_index_once(file: Seq<u8>) -> bool {
    &&& opened(file) matches Ok((footer, metaindex, _))
    &&& footer.index_handle is None
    &&& named_once(block_entries(metaindex.0).0, INDEX_BLOCK_NAME.spec_bytes())
}

/// A table names its index once.
pub proof fn lemma_index_named_once(entries: Seq<Entry>, opts: TableOptions)
    requires
        readable(entries, opts),
    ensures
        names_index_once(table_of(entries, opts)),
{
    let parts = table_parts(entries, opts);
    lemma_table_opens(entries, opts);
    lemma_metaindex_round_trip(
        handle_of(parts.with_index, parts.properties),
        handle_of(parts.data, parts.index),
    );
}

/// The properties of a table are found by their name in the metaindex, in
/// ascending order of their names.
#[verifier::rlimit(50)]
pub proof fn lemma_properties_round_trip(entries: Seq<Entry>, opts: TableOptions)
    requires
        readable(entries, opts),
        encode_utf8(opts.comparator_name).len() <= u32::MAX,
        encode_utf8(opts.column_family_name).len() <= u32::MAX,
    ensures
        ({
            let file = table_of(entries, opts);
            &&& opened(file) matches Ok((footer, metaindex, _))
            &&& meta_handle(metaindex.0, PROPERTIES_BLOCK_NAME.spec_bytes()) matches Ok(
                Some(handle),
            )
            &&& file_block_entries(file, footer, handle) == (
                sorted_by_name(property_list(table_properties(entries, opts))),
                None::<FormatError>,
            )
        }),
{
    let parts = table_parts(entries, opts);
    let props = table_properties(entries, opts);
    lemma_table_opens(entries, opts);
    lemma_table_layout(entries, opts);
    lemma_metaindex_round_trip(
        handle_of(parts.with_index, parts.properties),
        handle_of(parts.data, parts.index),
    );
    lemma_block_found(
        table_of(entries, opts),
        parts.with_index,
        parts.properties,
        opts,
        table_footer(entries, opts),
    );
    lemma_properties_bounded(props, u32::MAX as nat);
    assert(13 <= usize::MAX * u32::MAX) by (nonlinear_arith)
        requires
            usize::MAX >= 13,
    ;
    lemma_data_block_round_trip(usize::MAX as int, sorted_by_name(property_list(props)));
}

/// In a table that is to be ingested every sequence number is zero, and
/// nothing else of an entry has changed.
pub proof fn lemma_ingested_entries(entries: Seq<Entry>, opts: TableOptions, i: int)
    requires
        opts.external_sst_global_seqno is Some,
        0 <= i < entries.len(),
        is_internal_key(entries[i].0),
    ensures
        ({
            let written = written_entries(entries, opts)[i];
            &&& is_internal_key(written.0)
            &&& sequence_part(written.0) == 0
            &&& user_part(written.0) == user_part(entries[i].0)
            &&& type_byte_part(written.0) == type_byte_part(entries[i].0)
            &&& written.1 == entries[i].1
        }),
{
    let key = entries[i].0;
    lemma_join_key(user_part(key), packed_part(key) % 256);
}

/// What the default compaction keeps can be ingested: in its table every
/// sequence number is zero, and every user key is there once, in ascending
/// order.
pub proof fn lemma_compaction_can_be_ingested(merged: Seq<Entry>, opts: TableOptions)
    requires
        all_internal(merged),
        user_keys_ascend(merged),
        opts.external_sst_global_seqno is Some,
    ensures
        ({
            let written = written_entries(bottommost(merged), opts);
            &&& strictly_ascending(user_entries(written))
            &&& forall|i: int|
                0 <= i < written.len() ==> is_internal_key(#[trigger] written[i].0)
                    && sequence_part(written[i].0) == 0
        }),
{
    let kept = bottommost(merged);
    let written = written_entries(kept, opts);
    lemma_bottommost_ascends(merged);
    lemma_surviving::<BottommostStrategy>((), merged);
    assert forall|i: int| 0 <= i < written.len() implies is_internal_key(#[trigger] written[i].0)
        && sequence_part(written[i].0) == 0 && user_entries(written)[i] == user_entries(kept)[i] by {
        assert(is_internal_key(kept[i].0));
        lemma_ingested_entries(kept, opts, i);
    }
    assert(user_entries(written) =~= user_entries(kept));
}

/// How many bytes the names in the options have.
pub open spec fn name_bytes(opts: TableOptions) -> nat {
    encode_utf8(opts.comparator_name).len() + encode_utf8(opts.column_family_name).len()
}

/// What the entries of a data block weigh at least, the last block left out.
pub const LEAST_BLOCK_WEIGHT: usize = TARGET_BLOCK_SIZE - 8;

/// Whether there is room for a table whose entries weigh so much: it fits into
/// memory, and its data blocks can be counted in 32 bits.
pub open spec fn has_room_for(entries_weight: nat, opts: TableOptions) -> bool {
    &&& 4 * entries_weight + 13 * name_bytes(opts) + 0x4000 <= usize::MAX
    &&& entries_weight < LEAST_BLOCK_WEIGHT * u32::MAX
}

/// A data block is closed only when there is enough in it.
proof fn lemma_closed_weight(entries: Seq<Entry>)
    ensures
        LEAST_BLOCK_WEIGHT * dealt_out(entries).0.len() + weight(dealt_out(entries).1) <= weight(
            entries,
        ),
    decreases entries.len(),
{
    if entries.len() > 0 {
        let before = entries.drop_last();
        let (closed, open) = dealt_out(before);
        let grown = open.push(entries.last());
        lemma_closed_weight(before);
        lemma_bytes_push(before, entries.last());
        lemma_bytes_push(open, entries.last());
        assert(before.push(entries.last()) =~= entries);
        lemma_data_block_len(DATA_BLOCK_RESTART_INTERVAL as int, grown);
    }
}

/// What the entries of a table weigh bounds how many data blocks it has.
pub proof fn lemma_group_count(entries: Seq<Entry>)
    ensures
        LEAST_BLOCK_WEIGHT * (block_groups(entries).len() - 1) <= weight(entries),
{
    lemma_closed_weight(entries);
    let (closed, open) = dealt_out(entries);
    assert(LEAST_BLOCK_WEIGHT == 4088);
    assert(block_groups(entries).len() <= closed.len() + 1);
}

proof fn lemma_bytes_at_most(entries: Seq<Entry>, a: nat, b: nat)
    requires
        forall|i: int|
            0 <= i < entries.len() ==> (#[trigger] entries[i]).0.len() <= a && entries[i].1.len()
                <= b,
    ensures
        key_bytes(entries) <= a * entries.len(),
        value_bytes(entries) <= b * entries.len(),
    decreases entries.len(),
{
    if entries.len() > 0 {
        let before = entries.drop_last();
        let n = entries.len();
        assert forall|i: int| 0 <= i < before.len() implies (#[trigger] before[i]).0.len() <= a
            && before[i].1.len() <= b by {
            assert(entries[i].0.len() <= a);
        }
        lemma_bytes_at_most(before, a, b);
        assert(entries[n - 1].0.len() <= a);
        assert(a * (n - 1) + a == a * n) by (nonlinear_arith);
        assert(b * (n - 1) + b == b * n) by (nonlinear_arith);
    }
}

/// Two parts weigh together what the whole weighs.
proof fn lemma_weight_concat(a: Seq<Entry>, b: Seq<Entry>)
    ensures
        key_bytes(a + b) == key_bytes(a) + key_bytes(b),
        value_bytes(a + b) == value_bytes(a) + value_bytes(b),
        weight(a + b) == weight(a) + weight(b),
    decreases b.len(),
{
    if b.len() == 0 {
        assert(a + b =~= a);
    } else {
        lemma_weight_concat(a, b.drop_last());
        assert((a + b).drop_last() =~= a + b.drop_last());
    }
}

/// The data blocks and the index block take no more than the entries weigh
/// twice.
#[verifier::rlimit(50)]
proof fn lemma_groups_len(groups: Seq<Seq<Entry>>, opts: TableOptions)
    requires
        forall|i: int| 0 <= i < groups.len() ==> (#[trigger] groups[i]).len() > 0,
    ensures
        groups.len() <= flat(groups).len(),
        data_section(groups, opts).len() <= weight(flat(groups)) + 13 * groups.len(),
        joined(index_pieces(INDEX_BLOCK_RESTART_INTERVAL as int, table_index(groups, opts))).len()
            <= key_bytes(flat(groups)) + 30 * groups.len(),
    decreases groups.len(),
{
    let separators = table_index(groups, opts);
    let pieces = index_pieces(INDEX_BLOCK_RESTART_INTERVAL as int, separators);
    if groups.len() > 0 {
        let before = groups.drop_last();
        let group = groups.last();
        let n = before.len() as int;
        assert forall|i: int| 0 <= i < before.len() implies (#[trigger] before[i]).len() > 0 by {
            assert(groups[i].len() > 0);
        }
        assert(groups[n].len() > 0);
        lemma_groups_len(before, opts);
        lemma_weight_concat(flat(before), group);
        let contents = table_block(group);
        lemma_data_block_len(DATA_BLOCK_RESTART_INTERVAL as int, group);
        lemma_with_block(data_section(before, opts), contents, opts);
        lemma_bytes_of_one(group, group.len() - 1);
        let earlier = table_index(before, opts);
        assert(separators.drop_last() =~= earlier) by {
            assert forall|i: int| 0 <= i < n implies groups.take(i) == before.take(i) by {
                assert(groups.take(i) =~= before.take(i));
            }
        }
        assert(pieces.drop_last() =~= index_pieces(INDEX_BLOCK_RESTART_INTERVAL as int, earlier));
        let (key, handle) = separators[n];
        assert(n % 1 == 0);
        assert(pieces[n] == index_piece(0, key, separators[n - 1].1, handle));
        assert(key.skip(0) =~= key);
        lemma_varint_len(0);
        lemma_varint_len(key.len() as u32 as u64);
        lemma_varint_len(handle.offset);
        lemma_varint_len(handle.size);
    }
}

/// Whether a table can be read back is decided by what its entries weigh and
/// by how long they are.
#[verifier::rlimit(50)]
pub proof fn lemma_tables_with_room_are_readable(entries: Seq<Entry>, opts: TableOptions)
    requires
        lengths_fit(entries),
        has_room_for(weight(entries), opts),
    ensures
        readable(entries, opts),
{
    reveal(table_of);
    let groups = block_groups(entries);
    let parts = table_parts(entries, opts);
    lemma_block_groups(entries);
    lemma_groups_len(groups, opts);
    lemma_group_count(entries);
    lemma_index_block_len(INDEX_BLOCK_RESTART_INTERVAL as int, table_index(groups, opts));
    let props = table_properties(entries, opts);
    let list = sorted_by_name(property_list(props));
    lemma_properties_bounded(props, 10 + name_bytes(opts));
    lemma_bytes_at_most(list, 64, 10 + name_bytes(opts));
    assert((10 + name_bytes(opts)) * list.len() <= (10 + name_bytes(opts)) * 13)
        by (nonlinear_arith)
        requires
            list.len() <= 13,
    ;
    lemma_data_block_len(usize::MAX as int, list);
    lemma_metaindex_len(
        handle_of(parts.with_index, parts.properties),
        handle_of(parts.data, parts.index),
    );
    lemma_with_block(parts.data, parts.index, opts);
    lemma_with_block(parts.with_index, parts.properties, opts);
    lemma_with_block(parts.with_properties, parts.metaindex, opts);
    let body = with_block(parts.with_properties, parts.metaindex, opts);
    lemma_footer_len(
        FORMAT_VERSION,
        opts.checksum_type,
        parts.metaindex.len() as u32,
        opts.base_context_checksum,
        body.len() as u64,
    );
}

} // verus!
