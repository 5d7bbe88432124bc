//! What a whole table is, and how any table in this layout is read.

use crate::entry::{flat, key_bytes, value_bytes, Entry};
use crate::error::FormatError;
use crate::format::block::{block_contents, block_entries, parsed};
use crate::format::block_builder::{data_block, index_block, lemma_empty_block_len};
use crate::format::checksum::{checksum_of, placed};
use crate::format::footer::{footer_at, footer_bytes, handle_at, BlockHandle, Footer};
use crate::format::index::{handles_of, index_block_entries, IndexEntry};
use crate::format::laws::{lemma_key_bytes, lemma_packed_bytes, lemma_small_number_bytes};
use crate::format::properties::{
    metaindex_block, properties_block, property_list, sorted_by_name, Properties,
    BYTEWISE_COMPARATOR_NAME, INDEX_BLOCK_NAME, PROPERTIES_BLOCK_NAME,
};
use crate::format::sst_builder::{
    block_groups, data_section, dealt_out, table_index, table_of, table_properties,
    written_entries, TableOptions,
};
use crate::format::varint::varint;
use crate::sst::{
    block_parts, block_request, data_handles_of, file_block, file_block_entries, file_entries,
    first_named, index_handle_of, meta_handle, opened, stored_entries, table_entries, ReadRequest,
    SstReader,
};
use vstd::bytes::*;
use vstd::prelude::*;
use vstd::string::*;
use vstd::utf8::*;

verus! {

/// Putting groups one behind the other.
pub proof fn lemma_flat(groups: Seq<Seq<Entry>>, group: Seq<Entry>)
    ensures
        flat(Seq::empty()) == Seq::<Entry>::empty(),
        flat(groups.push(group)) == flat(groups) + group,
{
    assert(groups.push(group).drop_last() =~= groups);
}

/// The sizes of keys and values add up.
pub proof fn lemma_raw_sizes(entries: Seq<Entry>, entry: Entry)
    ensures
        key_bytes(Seq::empty()) == 0,
        value_bytes(Seq::empty()) == 0,
        key_bytes(entries.push(entry)) == key_bytes(entries) + entry.0.len(),
        value_bytes(entries.push(entry)) == value_bytes(entries) + entry.1.len(),
{
    assert(entries.push(entry).drop_last() =~= entries);
}

proof fn lemma_dealt_sizes(entries: Seq<Entry>)
    ensures
        data_block(16, dealt_out(entries).1).len() < 4096,
        forall|i: int|
            0 <= i < dealt_out(entries).0.len() ==> {
                let group = #[trigger] dealt_out(entries).0[i];
                &&& group.len() > 0
                &&& data_block(16, group).len() >= 4096
                &&& data_block(16, group.drop_last()).len() < 4096
            },
    decreases entries.len(),
{
    if entries.len() == 0 {
        lemma_empty_block_len(16);
    } else {
        let before = entries.drop_last();
        lemma_dealt_sizes(before);
        let open = dealt_out(before).1;
        assert(open.push(entries.last()).drop_last() =~= open);
        lemma_empty_block_len(16);
    }
}

/// A data block is closed as soon as it has at least 4096 bytes, its trailer
/// left out: without its last entry every block has fewer, and every block but
/// the last has as many.
pub proof fn lemma_block_sizes(entries: Seq<Entry>, i: int)
    requires
        0 <= i < block_groups(entries).len(),
    ensures
        ({
            let groups = block_groups(entries);
            &&& groups[i].len() > 0
            &&& data_block(16, groups[i].drop_last()).len() < 4096
            &&& i < groups.len() - 1 ==> data_block(16, groups[i]).len() >= 4096
        }),
{
    lemma_dealt_sizes(entries);
    let (closed, open) = dealt_out(entries);
    if i < closed.len() {
        assert(block_groups(entries)[i] == closed[i]);
    } else {
        lemma_open_shrinks(entries);
    }
}

/// The open block has room without its last entry.
proof fn lemma_open_shrinks(entries: Seq<Entry>)
    ensures
        dealt_out(entries).1.len() > 0 ==> data_block(16, dealt_out(entries).1.drop_last()).len()
            < 4096,
    decreases entries.len(),
{
    if entries.len() > 0 {
        let before = entries.drop_last();
        lemma_dealt_sizes(before);
        let open = dealt_out(before).1;
        assert(open.push(entries.last()).drop_last() =~= open);
    }
}

/// The data blocks of a table, one behind the other, each with its zero byte and
/// its checksum for its place; and the index of a table: the last key of each
/// block, where it starts and how many bytes it has, its trailer left out.
pub proof fn lemma_data_blocks(groups: Seq<Seq<Entry>>, group: Seq<Entry>, opts: TableOptions)
    ensures
        ({
            let front = data_section(groups, opts);
            let block = data_block(16, group).push(0u8);
            let sum = placed(
                checksum_of(opts.checksum_type, block),
                opts.base_context_checksum,
                front.len() as u64,
            );
            &&& data_section(Seq::empty(), opts) == Seq::<u8>::empty()
            &&& data_section(groups.push(group), opts) == front + (block + spec_u32_to_le_bytes(sum))
            &&& table_index(Seq::empty(), opts) == Seq::<IndexEntry>::empty()
            &&& table_index(groups.push(group), opts) == table_index(groups, opts).push(
                (
                    group.last().0,
                    BlockHandle {
                        offset: front.len() as u64,
                        size: data_block(16, group).len() as u64,
                    },
                ),
            )
        }),
{
    let all = groups.push(group);
    assert(all.drop_last() =~= groups);
    assert(all.take(groups.len() as int) =~= groups);
    assert forall|i: int| 0 <= i < groups.len() implies all.take(i) == groups.take(i) by {
        assert(all.take(i) =~= groups.take(i));
    }
    assert(table_index(all, opts) =~= table_index(groups, opts).push(
        (
            group.last().0,
            BlockHandle {
                offset: data_section(groups, opts).len() as u64,
                size: data_block(16, group).len() as u64,
            },
        ),
    ));
    assert(table_index(Seq::empty(), opts) =~= Seq::<IndexEntry>::empty());
}

/// A table: the data blocks, the index block with a restart point at every
/// entry, the properties block, the metaindex block that names these two, each
/// with a zero byte and its checksum for its place, and a footer of format
/// version 7 with the size of the metaindex block.
#[verifier::rlimit(50)]
pub proof fn lemma_table_bytes(entries: Seq<Entry>, opts: TableOptions)
    ensures
        ({
            let ty = opts.checksum_type;
            let base = opts.base_context_checksum;
            let groups = block_groups(entries);
            let data = data_section(groups, opts);
            let index = index_block(1, table_index(groups, opts)).push(0u8);
            let with_index = data + (index + spec_u32_to_le_bytes(
                placed(checksum_of(ty, index), base, data.len() as u64),
            ));
            let props = properties_block(table_properties(entries, opts)).push(0u8);
            let with_props = with_index + (props + spec_u32_to_le_bytes(
                placed(checksum_of(ty, props), base, with_index.len() as u64),
            ));
            let meta = metaindex_block(
                seq![
                    (
                        PROPERTIES_BLOCK_NAME,
                        BlockHandle {
                            offset: with_index.len() as u64,
                            size: (props.len() - 1) as u64,
                        },
                    ),
                    (
                        INDEX_BLOCK_NAME,
                        BlockHandle {
                            offset: data.len() as u64,
                            size: (index.len() - 1) as u64,
                        },
                    ),
                ],
            ).push(0u8);
            let body = with_props + (meta + spec_u32_to_le_bytes(
                placed(checksum_of(ty, meta), base, with_props.len() as u64),
            ));
            table_of(entries, opts) == body + footer_bytes(
                7,
                ty,
                (meta.len() - 1) as u32,
                base,
                body.len() as u64,
            )
        }),
{
    reveal(table_of);
}

/// What is written of the entries: the entries, or, where the table is to be
/// ingested, the same with the last seven bytes of every key zero.
pub proof fn lemma_written_entries(entries: Seq<Entry>, opts: TableOptions, i: int)
    requires
        0 <= i < entries.len(),
    ensures
        written_entries(entries, opts).len() == entries.len(),
        opts.external_sst_global_seqno is None ==> written_entries(entries, opts)[i] == entries[i],
        opts.external_sst_global_seqno is Some && entries[i].0.len() >= 8 ==> ({
            let key = entries[i].0;
            let n = key.len() - 8;
            written_entries(entries, opts)[i] == (
                key.take(n).push(key[n]) + Seq::new(7, |j: int| 0u8),
                entries[i].1,
            )
        }),
{
    if opts.external_sst_global_seqno is Some && entries[i].0.len() >= 8 {
        let key = entries[i].0;
        let n = key.len() - 8;
        lemma_key_bytes(key);
        lemma_packed_bytes(key);
        lemma_small_number_bytes(key[n]);
        assert(written_entries(entries, opts)[i].0 =~= key.take(n).push(key[n]) + Seq::new(
            7,
            |j: int| 0u8,
        ));
    }
}

/// The names of the blocks besides data blocks, and of the order of keys.
pub proof fn lemma_names()
    ensures
        PROPERTIES_BLOCK_NAME@ == "rocksdb.properties"@,
        INDEX_BLOCK_NAME@ == "rocksdb.index"@,
        BYTEWISE_COMPARATOR_NAME@ == "leveldb.BytewiseComparator"@,
{
}

/// What a table says of itself, property by property.
pub proof fn lemma_properties(props: Properties)
    ensures
        ({
            let list = property_list(props);
            &&& list.contains(
                (
                    "rocksdb.block.based.table.index.type".spec_bytes(),
                    spec_u32_to_le_bytes(0),
                ),
            )
            &&& list.contains(("rocksdb.num.entries".spec_bytes(), varint(props.num_entries as nat)))
            &&& list.contains(("rocksdb.raw.key.size".spec_bytes(), varint(props.raw_key_size as nat)))
            &&& list.contains(
                ("rocksdb.raw.value.size".spec_bytes(), varint(props.raw_value_size as nat)),
            )
            &&& list.contains(("rocksdb.data.size".spec_bytes(), varint(props.data_size as nat)))
            &&& list.contains(("rocksdb.index.size".spec_bytes(), varint(props.index_size as nat)))
            &&& list.contains(("rocksdb.index.key.is.user.key".spec_bytes(), seq![0u8]))
            &&& list.contains(("rocksdb.index.value.is.delta.encoded".spec_bytes(), seq![1u8]))
            &&& list.contains(
                ("rocksdb.column.family.id".spec_bytes(), varint(props.column_family_id as nat)),
            )
            &&& props.comparator_name.len() > 0 ==> list.contains(
                ("rocksdb.comparator".spec_bytes(), encode_utf8(props.comparator_name)),
            )
            &&& props.column_family_name.len() > 0 ==> list.contains(
                ("rocksdb.column.family.name".spec_bytes(), encode_utf8(props.column_family_name)),
            )
            &&& props.external_sst_global_seqno matches Some(seqno) ==> list.contains(
                ("rocksdb.external_sst_file.version".spec_bytes(), spec_u32_to_le_bytes(2)),
            ) && list.contains(
                ("rocksdb.external_sst_file.global_seqno".spec_bytes(), spec_u64_to_le_bytes(seqno)),
            )
            &&& list.len() == 9 + (if props.comparator_name.len() > 0 {
                1int
            } else {
                0
            }) + (if props.column_family_name.len() > 0 {
                1int
            } else {
                0
            }) + (if props.external_sst_global_seqno is Some {
                2int
            } else {
                0
            })
        }),
{
    let list = property_list(props);
    let a = if props.comparator_name.len() > 0 { 1int } else { 0 };
    let b = if props.column_family_name.len() > 0 { 1int } else { 0 };
    assert(varint(0) =~= seq![0u8]);
    assert(varint(1) =~= seq![1u8]);
    assert(list[0] == ("rocksdb.block.based.table.index.type".spec_bytes(), spec_u32_to_le_bytes(0)));
    assert(list[1].0 == "rocksdb.num.entries".spec_bytes());
    assert(list[2].0 == "rocksdb.raw.key.size".spec_bytes());
    assert(list[3].0 == "rocksdb.raw.value.size".spec_bytes());
    assert(list[4].0 == "rocksdb.data.size".spec_bytes());
    assert(list[5].0 == "rocksdb.index.size".spec_bytes());
    assert(list[6].0 == "rocksdb.index.key.is.user.key".spec_bytes());
    assert(list[7].0 == "rocksdb.index.value.is.delta.encoded".spec_bytes());
    if a == 1 {
        assert(list[8].0 == "rocksdb.comparator".spec_bytes());
    }
    assert(list[8 + a].0 == "rocksdb.column.family.id".spec_bytes());
    if b == 1 {
        assert(list[9 + a].0 == "rocksdb.column.family.name".spec_bytes());
    }
    if let Some(seqno) = props.external_sst_global_seqno {
        assert(list[9 + a + b].0 == "rocksdb.external_sst_file.version".spec_bytes());
        assert(list[10 + a + b].0 == "rocksdb.external_sst_file.global_seqno".spec_bytes());
    }
}

/// The properties of a table are those of its entries and its blocks.
pub proof fn lemma_table_properties(entries: Seq<Entry>, opts: TableOptions)
    ensures
        ({
            let props = table_properties(entries, opts);
            let groups = block_groups(entries);
            &&& props.num_entries == entries.len() as u64
            &&& props.raw_key_size == key_bytes(entries) as u64
            &&& props.raw_value_size == value_bytes(entries) as u64
            &&& props.data_size == data_section(groups, opts).len() as u64
            &&& props.index_size == index_block(1, table_index(groups, opts)).len() as u64
            &&& props.comparator_name == opts.comparator_name
            &&& props.column_family_id == opts.column_family_id
            &&& props.column_family_name == opts.column_family_name
            &&& props.external_sst_global_seqno == opts.external_sst_global_seqno
            &&& properties_block(props) == data_block(
                usize::MAX as int,
                sorted_by_name(property_list(props)),
            )
        }),
{
}

/// The entries of any block of a file: what its contents hold, where it and its
/// trailer are inside the file and can be read.
pub proof fn lemma_block_in_file(
    file: Seq<u8>,
    footer: Footer,
    handle: BlockHandle,
    contents: Seq<u8>,
)
    requires
        file.len() <= usize::MAX,
        handle.offset + handle.size + 5 <= file.len(),
        block_contents(
            file.subrange(handle.offset as int, handle.offset + handle.size + 5),
            handle,
            footer.checksum_type,
            footer.base_context_checksum,
        ) == Ok::<Seq<u8>, FormatError>(contents),
    ensures
        file_block(file, footer, handle) == parsed(contents),
        parsed(contents) matches Ok((bytes, _)) ==> file_block_entries(file, footer, handle)
            == block_entries(bytes),
{
}

/// A block that is not inside the file is not read.
pub proof fn lemma_block_out_of_file(file: Seq<u8>, footer: Footer, handle: BlockHandle)
    requires
        file.len() <= usize::MAX,
        handle.offset + handle.size + 5 > file.len(),
    ensures
        file_block(file, footer, handle) is Err,
        file_block_entries(file, footer, handle).0.len() == 0,
        file_block_entries(file, footer, handle).1 is Some,
{
}

/// The entries of data blocks are read one block after the other.
pub proof fn lemma_blocks_in_turn(
    file: Seq<u8>,
    footer: Footer,
    handles: Seq<BlockHandle>,
    groups: Seq<Seq<Entry>>,
)
    requires
        handles.len() == groups.len(),
        forall|i: int|
            0 <= i < handles.len() ==> file_block_entries(file, footer, #[trigger] handles[i]) == (
                groups[i],
                None::<FormatError>,
            ),
    ensures
        file_entries(file, footer, handles) == (flat(groups), None::<FormatError>),
    decreases handles.len(),
{
    if handles.len() > 0 {
        let before = handles.drop_last();
        assert forall|i: int| 0 <= i < before.len() implies file_block_entries(
            file,
            footer,
            #[trigger] before[i],
        ) == (groups.drop_last()[i], None::<FormatError>) by {
            assert(before[i] == handles[i]);
        }
        lemma_blocks_in_turn(file, footer, before, groups.drop_last());
        assert(handles[handles.len() - 1] == handles.last());
    }
}

/// The handle under a name in a metaindex is that of its first entry of that
/// name that holds one.
pub proof fn lemma_named_handle(entries: Seq<Entry>, name: Seq<u8>, p: int)
    requires
        0 <= p < entries.len(),
        entries[p].0 == name,
        handle_at(entries[p].1, 0) is Some,
        forall|q: int|
            0 <= q < p ==> (#[trigger] entries[q]).0 != name || handle_at(entries[q].1, 0) is None,
    ensures
        first_named(entries, name) == Some((handle_at(entries[p].1, 0)->0).0),
    decreases entries.len(),
{
    let before = entries.drop_last();
    assert forall|q: int| 0 <= q < p && q < before.len() implies (#[trigger] before[q]).0 != name
        || handle_at(before[q].1, 0) is None by {
        assert(before[q] == entries[q]);
    }
    if p < before.len() {
        lemma_named_handle(before, name, p);
    } else {
        lemma_not_named(before, name);
    }
}

/// A name that no entry has with a handle leads to nothing.
pub proof fn lemma_not_named(entries: Seq<Entry>, name: Seq<u8>)
    requires
        forall|q: int|
            0 <= q < entries.len() ==> (#[trigger] entries[q]).0 != name || handle_at(
                entries[q].1,
                0,
            ) is None,
    ensures
        first_named(entries, name) is None,
    decreases entries.len(),
{
    if entries.len() > 0 {
        let before = entries.drop_last();
        assert forall|q: int| 0 <= q < before.len() implies (#[trigger] before[q]).0 != name
            || handle_at(before[q].1, 0) is None by {
            assert(before[q] == entries[q]);
        }
        lemma_not_named(before, name);
        assert(entries[entries.len() - 1] == entries.last());
    }
}

/// How any table is read, whoever wrote it and of whichever format version: the
/// last 53 bytes are the footer; the index block is where the footer says, or,
/// if the footer does not say, where the metaindex says under its name; and the
/// entries are those of the data blocks that the index leads to, in its order.
#[verifier::rlimit(50)]
pub proof fn lemma_any_table(
    file: Seq<u8>,
    footer: Footer,
    metaindex: (Seq<u8>, Seq<u32>),
    index_handle: BlockHandle,
    index: (Seq<u8>, Seq<u32>),
    leads_to: Seq<IndexEntry>,
    groups: Seq<Seq<Entry>>,
)
    requires
        53 <= file.len() <= usize::MAX,
        footer_at(file.skip(file.len() - 53), file.len() as u64) == Ok::<Footer, FormatError>(
            footer,
        ),
        file_block(file, footer, footer.metaindex_handle) == Ok::<
            (Seq<u8>, Seq<u32>),
            FormatError,
        >(metaindex),
        footer.index_handle == Some(index_handle) || footer.index_handle is None && block_entries(
            metaindex.0,
        ).1 is None && first_named(
            block_entries(metaindex.0).0,
            "rocksdb.index".spec_bytes(),
        ) == Some(index_handle),
        file_block(file, footer, index_handle) == Ok::<(Seq<u8>, Seq<u32>), FormatError>(index),
        index_block_entries(index.0, index.1) == (leads_to, None::<FormatError>),
        groups.len() == leads_to.len(),
        forall|i: int|
            0 <= i < leads_to.len() ==> file_block_entries(
                file,
                footer,
                (#[trigger] leads_to[i]).1,
            ) == (groups[i], None::<FormatError>),
    ensures
        opened(file) == Ok::<
            (Footer, (Seq<u8>, Seq<u32>), (Seq<u8>, Seq<u32>)),
            FormatError,
        >((footer, metaindex, index)),
        table_entries(file) == (flat(groups), None::<FormatError>),
{
    let handles = handles_of(leads_to);
    assert forall|i: int| 0 <= i < handles.len() implies file_block_entries(
        file,
        footer,
        #[trigger] handles[i],
    ) == (groups[i], None::<FormatError>) by {
        assert(handles[i] == leads_to[i].1);
    }
    lemma_blocks_in_turn(file, footer, handles, groups);
}

/// The steps of opening a table, by themselves.
pub proof fn lemma_opening_steps(
    raw: Seq<u8>,
    footer: Footer,
    handle: BlockHandle,
    metaindex: (Seq<u8>, Seq<u32>),
    name: Seq<u8>,
    file: Seq<u8>,
)
    ensures
        block_parts(raw, footer, handle) == match block_contents(
            raw,
            handle,
            footer.checksum_type,
            footer.base_context_checksum,
        ) {
            Ok(contents) => parsed(contents),
            Err(e) => Err(e),
        },
        meta_handle(metaindex.0, name) == match block_entries(metaindex.0).1 {
            Some(e) => Err(e),
            None => Ok(first_named(block_entries(metaindex.0).0, name)),
        },
        footer.index_handle matches Some(given) ==> index_handle_of(footer, metaindex) == Ok::<
            BlockHandle,
            FormatError,
        >(given),
        footer.index_handle is None ==> index_handle_of(footer, metaindex) == match meta_handle(
            metaindex.0,
            "rocksdb.index".spec_bytes(),
        ) {
            Ok(Some(found)) => Ok(found),
            Ok(None) => Err(FormatError::IndexHandleMissing),
            Err(e) => Err(e),
        },
        file.len() <= usize::MAX && handle.offset + handle.size + 5 <= file.len() ==> (
        block_request(handle, file.len() as u64) matches Ok(request) && request.offset
            == handle.offset && request.len == handle.size + 5 && request.of(file)
            == file.subrange(handle.offset as int, handle.offset + handle.size + 5)),
        file.len() < 53 ==> opened(file) is Err,
        table_entries(file).1 is None ==> opened(file) is Ok,
{
}

/// A broken data block ends the reading: what was in front of it comes out, what
/// it holds before its fault, and what is wrong.
pub proof fn lemma_broken_block(
    file: Seq<u8>,
    footer: Footer,
    handles: Seq<BlockHandle>,
    groups: Seq<Seq<Entry>>,
    broken: BlockHandle,
    rest: Seq<BlockHandle>,
)
    requires
        handles.len() == groups.len(),
        forall|i: int|
            0 <= i < handles.len() ==> file_block_entries(file, footer, #[trigger] handles[i]) == (
                groups[i],
                None::<FormatError>,
            ),
        file_block_entries(file, footer, broken).1 is Some,
    ensures
        file_entries(file, footer, handles.push(broken) + rest) == (
            flat(groups) + file_block_entries(file, footer, broken).0,
            file_block_entries(file, footer, broken).1,
        ),
    decreases rest.len(),
{
    if rest.len() == 0 {
        lemma_blocks_in_turn(file, footer, handles, groups);
        assert(handles.push(broken) + rest =~= handles.push(broken));
        assert(handles.push(broken).drop_last() =~= handles);
    } else {
        lemma_broken_block(file, footer, handles, groups, broken, rest.drop_last());
        assert((handles.push(broken) + rest).drop_last() =~= handles.push(broken)
            + rest.drop_last());
    }
}

/// The handles that index entries lead to.
pub proof fn lemma_handles(entries: Seq<IndexEntry>, i: int)
    requires
        0 <= i < entries.len(),
    ensures
        handles_of(entries).len() == entries.len(),
        handles_of(entries)[i] == entries[i].1,
{
}

/// What a reader holds and what it is asked for.
pub proof fn lemma_reader(
    reader: SstReader,
    file: Seq<u8>,
    request: ReadRequest,
    raw: Seq<u8>,
    footer: Footer,
    handle: BlockHandle,
    index: (Seq<u8>, Seq<u32>),
)
    ensures
        reader.metaindex_parts() == (reader.metaindex.entry_bytes(), reader.metaindex.restarts@),
        reader.index_parts() == (reader.index.entry_bytes(), reader.index.restarts@),
        reader.reads(file) <==> opened(file) == Ok::<
            (Footer, (Seq<u8>, Seq<u32>), (Seq<u8>, Seq<u32>)),
            FormatError,
        >((reader.footer, reader.metaindex_parts(), reader.index_parts())),
        request.of(file) == file.subrange(request.offset as int, request.offset + request.len),
        request.inside(file.len() as int) <==> request.offset + request.len <= file.len(),
        stored_entries(raw, footer, handle) == match block_parts(raw, footer, handle) {
            Err(e) => (Seq::empty(), Some(e)),
            Ok((entry_bytes, _)) => block_entries(entry_bytes),
        },
        data_handles_of(index) == match index_block_entries(index.0, index.1).1 {
            Some(e) => Err(e),
            None => Ok(handles_of(index_block_entries(index.0, index.1).0)),
        },
{
}

/// What is wrong with a table that cannot be opened comes out, with no entry.
pub proof fn lemma_table_faults(file: Seq<u8>)
    ensures
        opened(file) matches Err(e) ==> table_entries(file).0.len() == 0 && table_entries(file).1
            == Some(e),
        opened(file) matches Ok((footer, _, index)) ==> match data_handles_of(index) {
            Err(e) => table_entries(file).0.len() == 0 && table_entries(file).1 == Some(e),
            Ok(handles) => table_entries(file) == file_entries(file, footer, handles),
        },
        file.len() < 53 ==> opened(file) == Err::<
            (Footer, (Seq<u8>, Seq<u32>), (Seq<u8>, Seq<u32>)),
            FormatError,
        >(FormatError::FileTooShort),
        file.len() >= 53 ==> (footer_at(
            file.skip(file.len() - 53),
            file.len() as u64,
        ) matches Err(e) ==> opened(file) == Err::<
            (Footer, (Seq<u8>, Seq<u32>), (Seq<u8>, Seq<u32>)),
            FormatError,
        >(e)),
{
}

} // verus!
