//! Writing whole tables.
//!
//! A table is data blocks, the index block, the properties block, the
//! metaindex block and the footer. All blocks are uncompressed. A data block
//! is closed as soon as it has reached its target size.

use crate::entry::{
    append_bytes, copy_bytes, entries_of, key_bytes, lemma_bytes_monotonic, lemma_bytes_push,
    value_bytes, Entry,
};
use crate::format::block::{encode_block_with_trailer, stored_block};
use crate::format::block_builder::{
    block_room, data_block, index_block, index_entry_fits, lemma_data_block_len, BlockBuilder,
    IndexBlockBuilder,
};
use crate::format::checksum::ChecksumType;
use crate::format::footer::{encode_footer_v6_plus, footer_bytes, BlockHandle};
use crate::format::index::IndexEntry;
use crate::format::internal_key::{
    is_internal_key, join_key, packed_part, user_part, NUM_INTERNAL_BYTES,
};
use crate::format::properties::{
    build_metaindex_block, build_properties_block, handle_bytes, meta_entries,
    metaindex_block, properties_block, sorted_by_name, Properties, PropertiesInput,
    BYTEWISE_COMPARATOR_NAME, INDEX_BLOCK_NAME, PROPERTIES_BLOCK_NAME,
};
use crate::format::varint::lemma_varint_len;
use crate::merge::cmp::BytewiseComparator;
use crate::merge::sort::lemma_sorted_by;
use vstd::bytes::*;
use vstd::prelude::*;
use vstd::slice::slice_subrange;
use vstd::string::*;

verus! {

pub const DATA_BLOCK_RESTART_INTERVAL: usize = 16;

pub const INDEX_BLOCK_RESTART_INTERVAL: usize = 1;

/// How many bytes a data block has to reach before it is closed.
pub const TARGET_BLOCK_SIZE: usize = 4096;

/// The format version of the tables written here.
pub const FORMAT_VERSION: u32 = 7;

/// How a table is to be written.
pub struct SstBuilderOptions {
    pub checksum_type: ChecksumType,
    pub comparator_name: String,
    /// The column family that the table is for.
    pub column_family_id: u64,
    pub column_family_name: String,
    /// Makes checksums depend on where a block is, unless it is zero. Readers
    /// expect it to be random.
    pub base_context_checksum: u32,
    /// Present where the table is to be ingested: then every sequence number
    /// becomes zero, and this one is noted in the properties.
    pub external_sst_global_seqno: Option<u64>,
}

/// The choices that decide what a table looks like.
pub struct TableOptions {
    pub checksum_type: ChecksumType,
    pub comparator_name: Seq<char>,
    pub column_family_id: u64,
    pub column_family_name: Seq<char>,
    pub base_context_checksum: u32,
    pub external_sst_global_seqno: Option<u64>,
}

impl View for SstBuilderOptions {
    type V = TableOptions;

    open spec fn view(&self) -> TableOptions {
        TableOptions {
            checksum_type: self.checksum_type,
            comparator_name: self.comparator_name@,
            column_family_id: self.column_family_id,
            column_family_name: self.column_family_name@,
            base_context_checksum: self.base_context_checksum,
            external_sst_global_seqno: self.external_sst_global_seqno,
        }
    }
}

impl Clone for SstBuilderOptions {
    fn clone(&self) -> (r: Self)
        ensures
            r@ == self@,
    {
        SstBuilderOptions {
            checksum_type: self.checksum_type,
            comparator_name: self.comparator_name.clone(),
            column_family_id: self.column_family_id,
            column_family_name: self.column_family_name.clone(),
            base_context_checksum: self.base_context_checksum,
            external_sst_global_seqno: self.external_sst_global_seqno,
        }
    }
}

impl Default for SstBuilderOptions {
    fn default() -> (r: Self)
        ensures
            r.checksum_type == ChecksumType::XxH3,
            r.comparator_name@ == BYTEWISE_COMPARATOR_NAME@,
            r.column_family_id == 0,
            r.column_family_name@ == "default"@,
            r.base_context_checksum == 1,
            r.external_sst_global_seqno is None,
    {
        SstBuilderOptions {
            checksum_type: ChecksumType::XxH3,
            comparator_name: BYTEWISE_COMPARATOR_NAME.to_owned(),
            column_family_id: 0,
            column_family_name: "default".to_owned(),
            base_context_checksum: 0x1,
            external_sst_global_seqno: None,
        }
    }
}

/// `key` with its sequence number replaced by zero.
pub open spec fn without_seqno(key: Seq<u8>) -> Seq<u8> {
    join_key(user_part(key), packed_part(key) % 256)
}

/// The entries that go into the table: as they are, or without sequence
/// numbers where the table is to be ingested.
pub open spec fn written_entries(entries: Seq<Entry>, opts: TableOptions) -> Seq<Entry> {
    if opts.external_sst_global_seqno is Some {
        Seq::new(entries.len(), |i: int| (without_seqno(entries[i].0), entries[i].1))
    } else {
        entries
    }
}

/// The data block that holds `entries`.
pub open spec fn table_block(entries: Seq<Entry>) -> Seq<u8> {
    data_block(DATA_BLOCK_RESTART_INTERVAL as int, entries)
}

/// `entries` dealt out to data blocks: those that are closed, and the entries
/// of the one that is still open.
pub open spec fn dealt_out(entries: Seq<Entry>) -> (Seq<Seq<Entry>>, Seq<Entry>)
    decreases entries.len(),
{
    if entries.len() == 0 {
        (Seq::empty(), Seq::empty())
    } else {
        let (closed, open) = dealt_out(entries.drop_last());
        let grown = open.push(entries.last());
        if table_block(grown).len() >= TARGET_BLOCK_SIZE {
            (closed.push(grown), Seq::empty())
        } else {
            (closed, grown)
        }
    }
}

/// The entries of each data block of a table that holds `entries`.
pub open spec fn block_groups(entries: Seq<Entry>) -> Seq<Seq<Entry>> {
    let (closed, open) = dealt_out(entries);
    if open.len() == 0 {
        closed
    } else {
        closed.push(open)
    }
}

/// The block that holds `contents`, behind what is already in the file.
pub open spec fn with_block(file: Seq<u8>, contents: Seq<u8>, opts: TableOptions) -> Seq<u8> {
    file + stored_block(
        contents,
        file.len() as u64,
        opts.checksum_type,
        opts.base_context_checksum,
    )
}

/// The handle of that block.
pub open spec fn handle_of(file: Seq<u8>, contents: Seq<u8>) -> BlockHandle {
    BlockHandle { offset: file.len() as u64, size: contents.len() as u64 }
}

/// The data blocks of a table one behind the other.
pub open spec fn data_section(groups: Seq<Seq<Entry>>, opts: TableOptions) -> Seq<u8>
    decreases groups.len(),
{
    if groups.len() == 0 {
        Seq::empty()
    } else {
        with_block(data_section(groups.drop_last(), opts), table_block(groups.last()), opts)
    }
}

/// The index of a table: the last key of each data block leads to its handle.
pub open spec fn table_index(groups: Seq<Seq<Entry>>, opts: TableOptions) -> Seq<IndexEntry> {
    Seq::new(
        groups.len(),
        |i: int|
            (
                groups[i].last().0,
                handle_of(data_section(groups.take(i), opts), table_block(groups[i])),
            ),
    )
}

/// The index block of a table.
pub open spec fn table_index_block(groups: Seq<Seq<Entry>>, opts: TableOptions) -> Seq<u8> {
    index_block(INDEX_BLOCK_RESTART_INTERVAL as int, table_index(groups, opts))
}

/// The properties of a table with `entries` in its data blocks.
pub open spec fn table_properties(entries: Seq<Entry>, opts: TableOptions) -> Properties {
    let groups = block_groups(entries);
    Properties {
        num_entries: entries.len() as u64,
        raw_key_size: key_bytes(entries) as u64,
        raw_value_size: value_bytes(entries) as u64,
        data_size: data_section(groups, opts).len() as u64,
        index_size: table_index_block(groups, opts).len() as u64,
        comparator_name: opts.comparator_name,
        column_family_id: opts.column_family_id,
        column_family_name: opts.column_family_name,
        external_sst_global_seqno: opts.external_sst_global_seqno,
    }
}

/// The metaindex block of a table: where its properties and its index are.
pub open spec fn table_metaindex(properties: BlockHandle, index: BlockHandle) -> Seq<u8> {
    metaindex_block(seq![(PROPERTIES_BLOCK_NAME, properties), (INDEX_BLOCK_NAME, index)])
}

/// The parts of a table that holds some entries.
pub struct TableParts {
    pub data: Seq<u8>,
    pub index: Seq<u8>,
    pub with_index: Seq<u8>,
    pub properties: Seq<u8>,
    pub with_properties: Seq<u8>,
    pub metaindex: Seq<u8>,
}

/// The parts of a table: the contents of its blocks, and what is in front of
/// each.
pub open spec fn table_parts(entries: Seq<Entry>, opts: TableOptions) -> TableParts {
    let groups = block_groups(entries);
    let data = data_section(groups, opts);
    let index = table_index_block(groups, opts);
    let with_index = with_block(data, index, opts);
    let properties = properties_block(table_properties(entries, opts));
    TableParts {
        data,
        index,
        with_index,
        properties,
        with_properties: with_block(with_index, properties, opts),
        metaindex: table_metaindex(handle_of(with_index, properties), handle_of(data, index)),
    }
}

/// A table without its footer, and the size of its metaindex block, which
/// comes last.
pub open spec fn table_body(entries: Seq<Entry>, opts: TableOptions) -> (Seq<u8>, nat) {
    let parts = table_parts(entries, opts);
    (with_block(parts.with_properties, parts.metaindex, opts), parts.metaindex.len())
}

/// A table with `entries` in its data blocks.
#[verifier::opaque]
pub open spec fn table_of(entries: Seq<Entry>, opts: TableOptions) -> Seq<u8> {
    let (body, metaindex_size) = table_body(entries, opts);
    body + footer_bytes(
        FORMAT_VERSION,
        opts.checksum_type,
        metaindex_size as u32,
        opts.base_context_checksum,
        body.len() as u64,
    )
}

/// The table that `entries` are written to.
pub open spec fn table_bytes(entries: Seq<Entry>, opts: TableOptions) -> Seq<u8> {
    table_of(written_entries(entries, opts), opts)
}

/// Computes `without_seqno`.
pub fn zero_out_seqno(internal_key: &[u8]) -> (r: Vec<u8>)
    requires
        is_internal_key(internal_key@),
    ensures
        r@ == without_seqno(internal_key@),
{
    let n: usize = internal_key.len() - NUM_INTERNAL_BYTES;
    let suffix = slice_subrange(internal_key, n, internal_key.len());
    assert(suffix@ =~= internal_key@.skip(n as int));
    let packed: u64 = u64_from_le_bytes(suffix);
    let user_key = slice_subrange(internal_key, 0, n);
    assert(user_key@ =~= user_part(internal_key@));
    let mut key = copy_bytes(user_key);
    append_bytes(&mut key, u64_to_le_bytes(packed % 256).as_slice());
    key
}

/// What is written of `key`.
fn written_key(key: &[u8], external: bool) -> (r: Vec<u8>)
    requires
        external ==> is_internal_key(key@),
    ensures
        r@ == if external {
            without_seqno(key@)
        } else {
            key@
        },
{
    if external {
        zero_out_seqno(key)
    } else {
        copy_bytes(key)
    }
}

/// The open block needs no more room than all entries.
proof fn lemma_open_block_room(entries: Seq<Entry>)
    ensures
        block_room(dealt_out(entries).1) <= block_room(entries),
    decreases entries.len(),
{
    if entries.len() > 0 {
        let before = entries.drop_last();
        lemma_open_block_room(before);
        let open = dealt_out(before).1;
        lemma_bytes_push(open, entries.last());
        lemma_bytes_push(before, entries.last());
        assert(before.push(entries.last()) =~= entries);
        assert(open.push(entries.last()).len() == open.len() + 1);
    }
}

/// A table on its way to the file: closed data blocks and their index.
struct DataWriter {
    file: Vec<u8>,
    index: IndexBlockBuilder,
    groups: Ghost<Seq<Seq<Entry>>>,
}

impl DataWriter {
    spec fn inv(&self, opts: TableOptions) -> bool {
        &&& self.file@ == data_section(self.groups@, opts)
        &&& self.index.inv()
        &&& self.index.interval() == INDEX_BLOCK_RESTART_INTERVAL
        &&& self.index.entries() == table_index(self.groups@, opts)
    }

    /// Closes a data block.
    fn flush(&mut self, block: BlockBuilder, last_key: &[u8], opts: &SstBuilderOptions)
        requires
            old(self).inv(opts@),
            block.inv(),
            block.interval() == DATA_BLOCK_RESTART_INTERVAL,
            block.entries().len() > 0,
            block.entries().last().0 == last_key@,
        ensures
            final(self).inv(opts@),
            final(self).groups@ == old(self).groups@.push(block.entries()),
    {
        let ghost groups = self.groups@;
        let ghost group = block.entries();
        let ghost file = self.file@;
        let raw = block.finish();
        let handle = append_block(&mut self.file, raw, opts);
        assert(index_entry_fits(
            INDEX_BLOCK_RESTART_INTERVAL as int,
            self.index.entries(),
            last_key@,
            handle,
        )) by {
            assert(self.index.entries().len() as int % 1 == 0);
        }
        self.index.add(last_key, handle);
        proof {
            let all = groups.push(group);
            self.groups@ = all;
            assert(all.drop_last() =~= groups);
            assert forall|i: int| 0 <= i < groups.len() implies all.take(i) == groups.take(i) by {
                assert(all.take(i) =~= groups.take(i));
            }
            assert(all.take(groups.len() as int) =~= groups);
            assert(table_index(all, opts@) =~= table_index(groups, opts@).push((last_key@, handle)));
        }
    }
}

/// A metaindex block of two short names is short.
pub proof fn lemma_metaindex_len(properties: BlockHandle, index: BlockHandle)
    ensures
        table_metaindex(properties, index).len() <= 4096,
{
    let named = seq![(PROPERTIES_BLOCK_NAME, properties), (INDEX_BLOCK_NAME, index)];
    let a = (PROPERTIES_BLOCK_NAME.spec_bytes(), handle_bytes(properties));
    let b = (INDEX_BLOCK_NAME.spec_bytes(), handle_bytes(index));
    let entries = meta_entries(named);
    assert(entries =~= seq![a, b]);
    lemma_sorted_by::<BytewiseComparator>(entries);
    lemma_varint_len(properties.offset);
    lemma_varint_len(properties.size);
    lemma_varint_len(index.offset);
    lemma_varint_len(index.size);
    reveal_strlit("rocksdb.properties");
    reveal_strlit("rocksdb.index");
    assert(PROPERTIES_BLOCK_NAME.is_ascii());
    assert(INDEX_BLOCK_NAME.is_ascii());
    assert(a.0.len() == 18 && b.0.len() == 13);
    let sorted = sorted_by_name(entries);
    assert forall|i: int| 0 <= i < 2 implies sorted[i] == a || sorted[i] == b by {
        broadcast use vstd::seq_lib::group_to_multiset_ensures;

        assert(sorted.to_multiset().count(sorted[i]) > 0);
        assert(entries.contains(sorted[i]));
    }
    lemma_bytes_push(Seq::empty(), sorted[0]);
    lemma_bytes_push(Seq::empty().push(sorted[0]), sorted[1]);
    assert(Seq::empty().push(sorted[0]).push(sorted[1]) =~= sorted);
    lemma_data_block_len(1, sorted);
}

/// Appends a block to the file.
fn append_block(file: &mut Vec<u8>, raw: Vec<u8>, opts: &SstBuilderOptions) -> (r: BlockHandle)
    ensures
        final(file)@ == with_block(old(file)@, raw@, opts@),
        r == handle_of(old(file)@, raw@),
{
    let offset: u64 = file.len() as u64;
    let size: u64 = raw.len() as u64;
    let with_trailer = encode_block_with_trailer(
        raw,
        offset,
        opts.checksum_type,
        opts.base_context_checksum,
    );
    append_bytes(file, with_trailer.as_slice());
    BlockHandle { offset, size }
}

/// Writes the data blocks of a table. The two numbers are how many bytes the
/// keys and the values have.
#[verifier::rlimit(50)]
fn write_data_blocks(entries: &[(Vec<u8>, Vec<u8>)], opts: &SstBuilderOptions) -> (r: (
    DataWriter,
    u64,
    u64,
))
    requires
        opts.external_sst_global_seqno is Some ==> forall|i: int|
            0 <= i < entries@.len() ==> is_internal_key(#[trigger] entries@[i].0@),
        block_room(written_entries(entries_of(entries@), opts@)) <= usize::MAX,
    ensures
        ({
            let all = written_entries(entries_of(entries@), opts@);
            &&& r.0.inv(opts@)
            &&& r.0.groups@ == block_groups(all)
            &&& r.1 == key_bytes(all)
            &&& r.2 == value_bytes(all)
        }),
{
    let ghost all = written_entries(entries_of(entries@), opts@);
    let external = opts.external_sst_global_seqno.is_some();
    let mut writer = DataWriter {
        file: Vec::new(),
        index: IndexBlockBuilder::new(INDEX_BLOCK_RESTART_INTERVAL),
        groups: Ghost(Seq::empty()),
    };
    proof {
        assert(writer.file@ =~= Seq::<u8>::empty());
        assert(table_index(Seq::empty(), opts@) =~= Seq::<IndexEntry>::empty());
        assert(all.take(0) =~= Seq::<Entry>::empty());
    }
    let mut block = BlockBuilder::new(DATA_BLOCK_RESTART_INTERVAL);
    let mut last_key: Vec<u8> = Vec::new();
    let mut raw_key_size: u64 = 0;
    let mut raw_value_size: u64 = 0;
    let mut i: usize = 0;
    while i < entries.len()
        invariant
            i <= entries@.len(),
            all == written_entries(entries_of(entries@), opts@),
            all.len() == entries@.len(),
            external == (opts.external_sst_global_seqno is Some),
            external ==> forall|i: int|
                0 <= i < entries@.len() ==> is_internal_key(#[trigger] entries@[i].0@),
            block_room(all) <= usize::MAX,
            writer.inv(opts@),
            block.inv(),
            block.interval() == DATA_BLOCK_RESTART_INTERVAL,
            (writer.groups@, block.entries()) == dealt_out(all.take(i as int)),
            block.entries().len() > 0 ==> last_key@ == block.entries().last().0,
            raw_key_size == key_bytes(all.take(i as int)),
            raw_value_size == value_bytes(all.take(i as int)),
        decreases entries@.len() - i,
    {
        let key = written_key(entries[i].0.as_slice(), external);
        let value = entries[i].1.as_slice();
        let ghost entry = (key@, value@);
        let ghost upto = all.take(i + 1);
        proof {
            assert(entry == all[i as int]);
            assert(upto.drop_last() =~= all.take(i as int));
            assert(upto.last() == entry);
            lemma_bytes_monotonic(all, i + 1);
            lemma_open_block_room(all.take(i as int));
            lemma_bytes_push(block.entries(), entry);
            lemma_data_block_len(
                DATA_BLOCK_RESTART_INTERVAL as int,
                block.entries().push(entry),
            );
        }
        raw_key_size = raw_key_size + key.len() as u64;
        raw_value_size = raw_value_size + value.len() as u64;
        block.add(key.as_slice(), value);
        last_key = key;
        assert(block.entries().last() == entry);
        if block.current_size_estimate() >= TARGET_BLOCK_SIZE {
            let finished = block;
            block = BlockBuilder::new(DATA_BLOCK_RESTART_INTERVAL);
            writer.flush(finished, last_key.as_slice(), opts);
        }
        i = i + 1;
    }
    assert(all.take(i as int) =~= all);
    if !block.is_empty() {
        writer.flush(block, last_key.as_slice(), opts);
    }
    (writer, raw_key_size, raw_value_size)
}

/// Builds a table. `entries` have to be in order of their internal keys; they
/// are neither sorted nor deduplicated here.
#[verifier::rlimit(50)]
pub fn build_sst(entries: &[(Vec<u8>, Vec<u8>)], opts: &SstBuilderOptions) -> (r: Vec<u8>)
    requires
        opts.external_sst_global_seqno is Some ==> forall|i: int|
            0 <= i < entries@.len() ==> is_internal_key(#[trigger] entries@[i].0@),
        block_room(written_entries(entries_of(entries@), opts@)) <= usize::MAX,
    ensures
        r@ == table_bytes(entries_of(entries@), opts@),
{
    let ghost all = written_entries(entries_of(entries@), opts@);
    let (writer, raw_key_size, raw_value_size) = write_data_blocks(entries, opts);
    let mut file = writer.file;
    let data_size: u64 = file.len() as u64;

    let index_raw = writer.index.finish();
    let index_size: u64 = index_raw.len() as u64;
    let index_handle = append_block(&mut file, index_raw, opts);

    let props = PropertiesInput {
        num_entries: entries.len() as u64,
        raw_key_size,
        raw_value_size,
        data_size,
        index_size,
        comparator_name: opts.comparator_name.clone(),
        column_family_id: opts.column_family_id,
        column_family_name: opts.column_family_name.clone(),
        external_sst_global_seqno: opts.external_sst_global_seqno,
    };
    assert(props@ == table_properties(all, opts@));
    let props_raw = build_properties_block(&props);
    let props_handle = append_block(&mut file, props_raw, opts);

    let mut named: Vec<(&str, BlockHandle)> = Vec::new();
    named.push((PROPERTIES_BLOCK_NAME, props_handle));
    named.push((INDEX_BLOCK_NAME, index_handle));
    assert(named@ =~= seq![
        (PROPERTIES_BLOCK_NAME, props_handle),
        (INDEX_BLOCK_NAME, index_handle),
    ]);
    let metaindex_raw = build_metaindex_block(named.as_slice());
    proof {
        lemma_metaindex_len(props_handle, index_handle);
    }
    let metaindex_handle = append_block(&mut file, metaindex_raw, opts);

    let footer_offset: u64 = file.len() as u64;
    let footer = encode_footer_v6_plus(
        FORMAT_VERSION,
        opts.checksum_type,
        metaindex_handle,
        opts.base_context_checksum,
        footer_offset,
    );
    append_bytes(&mut file, footer.as_slice());
    proof {
        reveal(table_of);
    }
    file
}

} // verus!
