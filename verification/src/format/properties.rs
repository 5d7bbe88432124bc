//! The properties block and the metaindex block.
//!
//! Both are data blocks whose keys are names in ascending order. The
//! properties block states facts about the table; the metaindex block says
//! where the other blocks that are not data blocks are.

use crate::entry::{copy_bytes, entries_of, Entry};
use crate::format::block_builder::{data_block, BlockBuilder};
use crate::format::footer::BlockHandle;
use crate::format::varint::{lemma_varint_len, put_varint64, varint};
use crate::merge::cmp::BytewiseComparator;
use crate::merge::sort::{insert_sorted, lemma_sorted_by, sorted_by};
use vstd::bytes::*;
use vstd::prelude::*;
use vstd::string::*;
use vstd::utf8::*;

verus! {

pub const PROPERTIES_BLOCK_NAME: &'static str = "rocksdb.properties";

pub const INDEX_BLOCK_NAME: &'static str = "rocksdb.index";

pub const KEY_INDEX_TYPE: &'static str = "rocksdb.block.based.table.index.type";

pub const KEY_NUM_ENTRIES: &'static str = "rocksdb.num.entries";

pub const KEY_RAW_KEY_SIZE: &'static str = "rocksdb.raw.key.size";

pub const KEY_RAW_VALUE_SIZE: &'static str = "rocksdb.raw.value.size";

pub const KEY_DATA_SIZE: &'static str = "rocksdb.data.size";

pub const KEY_INDEX_SIZE: &'static str = "rocksdb.index.size";

pub const KEY_INDEX_KEY_IS_USER_KEY: &'static str = "rocksdb.index.key.is.user.key";

pub const KEY_INDEX_VALUE_IS_DELTA_ENCODED: &'static str = "rocksdb.index.value.is.delta.encoded";

pub const KEY_COMPARATOR: &'static str = "rocksdb.comparator";

pub const KEY_COLUMN_FAMILY_ID: &'static str = "rocksdb.column.family.id";

pub const KEY_COLUMN_FAMILY_NAME: &'static str = "rocksdb.column.family.name";

pub const KEY_EXTERNAL_VERSION: &'static str = "rocksdb.external_sst_file.version";

pub const KEY_EXTERNAL_GLOBAL_SEQNO: &'static str = "rocksdb.external_sst_file.global_seqno";

/// The version of files written for ingestion.
pub const EXTERNAL_SST_VERSION: u32 = 2;

/// The type of an index that is one block, searched by bisection.
pub const INDEX_TYPE_BINARY_SEARCH: u32 = 0;

/// The name of the order by bytes.
pub const BYTEWISE_COMPARATOR_NAME: &'static str = "leveldb.BytewiseComparator";

/// What goes into a properties block.
#[derive(Debug)]
pub struct PropertiesInput {
    pub num_entries: u64,
    pub raw_key_size: u64,
    pub raw_value_size: u64,
    pub data_size: u64,
    pub index_size: u64,
    pub comparator_name: String,
    /// The column family the table belongs to.
    pub column_family_id: u64,
    pub column_family_name: String,
    /// Present in a table that is to be ingested: the sequence number that
    /// stands for the one it gets then.
    pub external_sst_global_seqno: Option<u64>,
}

/// What a properties block states.
pub struct Properties {
    pub num_entries: u64,
    pub raw_key_size: u64,
    pub raw_value_size: u64,
    pub data_size: u64,
    pub index_size: u64,
    pub comparator_name: Seq<char>,
    pub column_family_id: u64,
    pub column_family_name: Seq<char>,
    pub external_sst_global_seqno: Option<u64>,
}

impl View for PropertiesInput {
    type V = Properties;

    open spec fn view(&self) -> Properties {
        Properties {
            num_entries: self.num_entries,
            raw_key_size: self.raw_key_size,
            raw_value_size: self.raw_value_size,
            data_size: self.data_size,
            index_size: self.index_size,
            comparator_name: self.comparator_name@,
            column_family_id: self.column_family_id,
            column_family_name: self.column_family_name@,
            external_sst_global_seqno: self.external_sst_global_seqno,
        }
    }
}

impl Clone for PropertiesInput {
    fn clone(&self) -> (r: Self)
        ensures
            r@ == self@,
    {
        PropertiesInput {
            num_entries: self.num_entries,
            raw_key_size: self.raw_key_size,
            raw_value_size: self.raw_value_size,
            data_size: self.data_size,
            index_size: self.index_size,
            comparator_name: self.comparator_name.clone(),
            column_family_id: self.column_family_id,
            column_family_name: self.column_family_name.clone(),
            external_sst_global_seqno: self.external_sst_global_seqno,
        }
    }
}

impl Default for PropertiesInput {
    fn default() -> (r: Self)
        ensures
            r.num_entries == 0,
            r.raw_key_size == 0,
            r.raw_value_size == 0,
            r.data_size == 0,
            r.index_size == 0,
            r.comparator_name@ == Seq::<char>::empty(),
            r.column_family_id == 0,
            r.column_family_name@ == Seq::<char>::empty(),
            r.external_sst_global_seqno is None,
    {
        PropertiesInput {
            num_entries: 0,
            raw_key_size: 0,
            raw_value_size: 0,
            data_size: 0,
            index_size: 0,
            comparator_name: String::new(),
            column_family_id: 0,
            column_family_name: String::new(),
            external_sst_global_seqno: None,
        }
    }
}

/// `entries` in ascending order of their names; equal names keep their order.
pub open spec fn sorted_by_name(entries: Seq<Entry>) -> Seq<Entry> {
    sorted_by::<BytewiseComparator>(entries)
}

/// The properties of a table, before they are put in order.
pub open spec fn property_list(props: Properties) -> Seq<Entry> {
    seq![
        (KEY_INDEX_TYPE.spec_bytes(), spec_u32_to_le_bytes(INDEX_TYPE_BINARY_SEARCH)),
        (KEY_NUM_ENTRIES.spec_bytes(), varint(props.num_entries as nat)),
        (KEY_RAW_KEY_SIZE.spec_bytes(), varint(props.raw_key_size as nat)),
        (KEY_RAW_VALUE_SIZE.spec_bytes(), varint(props.raw_value_size as nat)),
        (KEY_DATA_SIZE.spec_bytes(), varint(props.data_size as nat)),
        (KEY_INDEX_SIZE.spec_bytes(), varint(props.index_size as nat)),
        (KEY_INDEX_KEY_IS_USER_KEY.spec_bytes(), varint(0)),
        (KEY_INDEX_VALUE_IS_DELTA_ENCODED.spec_bytes(), varint(1)),
    ] + (if props.comparator_name.len() == 0 {
        Seq::empty()
    } else {
        seq![(KEY_COMPARATOR.spec_bytes(), encode_utf8(props.comparator_name))]
    }) + seq![(KEY_COLUMN_FAMILY_ID.spec_bytes(), varint(props.column_family_id as nat))] + (
    if props.column_family_name.len() == 0 {
        Seq::empty()
    } else {
        seq![(KEY_COLUMN_FAMILY_NAME.spec_bytes(), encode_utf8(props.column_family_name))]
    }) + (match props.external_sst_global_seqno {
        None => Seq::empty(),
        Some(seqno) => seq![
            (KEY_EXTERNAL_VERSION.spec_bytes(), spec_u32_to_le_bytes(EXTERNAL_SST_VERSION)),
            (KEY_EXTERNAL_GLOBAL_SEQNO.spec_bytes(), spec_u64_to_le_bytes(seqno)),
        ],
    })
}

/// The properties block of a table: all in one restart interval.
pub open spec fn properties_block(props: Properties) -> Seq<u8> {
    data_block(usize::MAX as int, sorted_by_name(property_list(props)))
}

/// The names of properties are short.
proof fn lemma_property_names()
    ensures
        KEY_INDEX_TYPE.spec_bytes().len() <= 64,
        KEY_NUM_ENTRIES.spec_bytes().len() <= 64,
        KEY_RAW_KEY_SIZE.spec_bytes().len() <= 64,
        KEY_RAW_VALUE_SIZE.spec_bytes().len() <= 64,
        KEY_DATA_SIZE.spec_bytes().len() <= 64,
        KEY_INDEX_SIZE.spec_bytes().len() <= 64,
        KEY_INDEX_KEY_IS_USER_KEY.spec_bytes().len() <= 64,
        KEY_INDEX_VALUE_IS_DELTA_ENCODED.spec_bytes().len() <= 64,
        KEY_COMPARATOR.spec_bytes().len() <= 64,
        KEY_COLUMN_FAMILY_ID.spec_bytes().len() <= 64,
        KEY_COLUMN_FAMILY_NAME.spec_bytes().len() <= 64,
        KEY_EXTERNAL_VERSION.spec_bytes().len() <= 64,
        KEY_EXTERNAL_GLOBAL_SEQNO.spec_bytes().len() <= 64,
{
    reveal_strlit("rocksdb.block.based.table.index.type");
    reveal_strlit("rocksdb.num.entries");
    reveal_strlit("rocksdb.raw.key.size");
    reveal_strlit("rocksdb.raw.value.size");
    reveal_strlit("rocksdb.data.size");
    reveal_strlit("rocksdb.index.size");
    reveal_strlit("rocksdb.index.key.is.user.key");
    reveal_strlit("rocksdb.index.value.is.delta.encoded");
    reveal_strlit("rocksdb.comparator");
    reveal_strlit("rocksdb.column.family.id");
    reveal_strlit("rocksdb.column.family.name");
    reveal_strlit("rocksdb.external_sst_file.version");
    reveal_strlit("rocksdb.external_sst_file.global_seqno");
    assert(KEY_INDEX_TYPE.is_ascii());
    assert(KEY_NUM_ENTRIES.is_ascii());
    assert(KEY_RAW_KEY_SIZE.is_ascii());
    assert(KEY_RAW_VALUE_SIZE.is_ascii());
    assert(KEY_DATA_SIZE.is_ascii());
    assert(KEY_INDEX_SIZE.is_ascii());
    assert(KEY_INDEX_KEY_IS_USER_KEY.is_ascii());
    assert(KEY_INDEX_VALUE_IS_DELTA_ENCODED.is_ascii());
    assert(KEY_COMPARATOR.is_ascii());
    assert(KEY_COLUMN_FAMILY_ID.is_ascii());
    assert(KEY_COLUMN_FAMILY_NAME.is_ascii());
    assert(KEY_EXTERNAL_VERSION.is_ascii());
    assert(KEY_EXTERNAL_GLOBAL_SEQNO.is_ascii());
}

/// The names of properties are short, and so are the values but for the names
/// that go into them.
pub proof fn lemma_properties_bounded(props: Properties, bound: nat)
    requires
        bound >= 10,
        encode_utf8(props.comparator_name).len() <= bound,
        encode_utf8(props.column_family_name).len() <= bound,
    ensures
        forall|i: int|
            0 <= i < sorted_by_name(property_list(props)).len() ==> (
            #[trigger] sorted_by_name(property_list(props))[i]).0.len() <= 64 && sorted_by_name(
                property_list(props),
            )[i].1.len() <= bound,
        sorted_by_name(property_list(props)).len() <= 13,
{
    broadcast use vstd::seq_lib::group_to_multiset_ensures;

    let list = property_list(props);
    let sorted = sorted_by_name(list);
    lemma_property_names();
    lemma_auto_spec_u32_to_from_le_bytes();
    lemma_auto_spec_u64_to_from_le_bytes();
    lemma_varint_len(props.num_entries);
    lemma_varint_len(props.raw_key_size);
    lemma_varint_len(props.raw_value_size);
    lemma_varint_len(props.data_size);
    lemma_varint_len(props.index_size);
    lemma_varint_len(props.column_family_id);
    lemma_varint_len(0);
    lemma_varint_len(1);
    assert forall|i: int| 0 <= i < list.len() implies (#[trigger] list[i]).0.len() <= 64
        && list[i].1.len() <= bound by {}
    lemma_sorted_by::<BytewiseComparator>(list);
    assert forall|i: int| 0 <= i < sorted.len() implies (#[trigger] sorted[i]).0.len() <= 64
        && sorted[i].1.len() <= bound by {
        assert(sorted.to_multiset().count(sorted[i]) > 0);
        assert(list.contains(sorted[i]));
        let j = choose|j: int| 0 <= j < list.len() && list[j] == sorted[i];
        assert(list[j].0.len() <= 64);
    }
}

/// Entries that are kept in order of their names, with what was put in.
struct NamedEntries {
    sorted: Vec<(Vec<u8>, Vec<u8>)>,
    added: Ghost<Seq<Entry>>,
}

impl NamedEntries {
    spec fn inv(&self) -> bool {
        entries_of(self.sorted@) == sorted_by_name(self.added@)
    }

    fn new() -> (r: Self)
        ensures
            r.inv(),
            r.added@ == Seq::<Entry>::empty(),
    {
        let r = NamedEntries { sorted: Vec::new(), added: Ghost(Seq::empty()) };
        assert(entries_of(r.sorted@) =~= Seq::<Entry>::empty());
        r
    }

    fn put(&mut self, name: &str, value: Vec<u8>)
        requires
            old(self).inv(),
        ensures
            final(self).inv(),
            final(self).added@ == old(self).added@.push((name.spec_bytes(), value@)),
    {
        insert_sorted::<BytewiseComparator>(&mut self.sorted, name.as_bytes(), value);
        proof {
            let before = self.added@;
            let entry = (name.spec_bytes(), value@);
            self.added@ = before.push(entry);
            assert(before.push(entry).drop_last() =~= before);
        }
    }

    /// A data block that holds them.
    fn into_block(self, restart_interval: usize) -> (r: Vec<u8>)
        requires
            self.inv(),
            restart_interval >= 1,
        ensures
            r@ == data_block(restart_interval as int, sorted_by_name(self.added@)),
    {
        let mut builder = BlockBuilder::new(restart_interval);
        let mut i: usize = 0;
        assert(entries_of(self.sorted@).take(0) =~= Seq::<Entry>::empty());
        while i < self.sorted.len()
            invariant
                i <= self.sorted@.len(),
                builder.inv(),
                builder.interval() == restart_interval,
                builder.entries() == entries_of(self.sorted@).take(i as int),
            decreases self.sorted@.len() - i,
        {
            builder.add(self.sorted[i].0.as_slice(), self.sorted[i].1.as_slice());
            assert(entries_of(self.sorted@).take(i + 1) =~= entries_of(self.sorted@).take(
                i as int,
            ).push(entries_of(self.sorted@)[i as int]));
            i = i + 1;
        }
        assert(entries_of(self.sorted@).take(i as int) =~= entries_of(self.sorted@));
        builder.finish()
    }
}

/// Builds the properties block.
pub fn build_properties_block(props: &PropertiesInput) -> (r: Vec<u8>)
    ensures
        r@ == properties_block(props@),
{
    let mut entries = NamedEntries::new();
    entries.put(KEY_INDEX_TYPE, u32_to_le_bytes(INDEX_TYPE_BINARY_SEARCH));
    entries.put(KEY_NUM_ENTRIES, varint64_bytes(props.num_entries));
    entries.put(KEY_RAW_KEY_SIZE, varint64_bytes(props.raw_key_size));
    entries.put(KEY_RAW_VALUE_SIZE, varint64_bytes(props.raw_value_size));
    entries.put(KEY_DATA_SIZE, varint64_bytes(props.data_size));
    entries.put(KEY_INDEX_SIZE, varint64_bytes(props.index_size));
    // The keys of the index are whole internal keys.
    entries.put(KEY_INDEX_KEY_IS_USER_KEY, varint64_bytes(0));
    // Handles in the index may be written relative to the one before.
    entries.put(KEY_INDEX_VALUE_IS_DELTA_ENCODED, varint64_bytes(1));
    if !props.comparator_name.as_str().is_empty() {
        entries.put(KEY_COMPARATOR, copy_bytes(props.comparator_name.as_str().as_bytes()));
    }
    entries.put(KEY_COLUMN_FAMILY_ID, varint64_bytes(props.column_family_id));
    if !props.column_family_name.as_str().is_empty() {
        entries.put(
            KEY_COLUMN_FAMILY_NAME,
            copy_bytes(props.column_family_name.as_str().as_bytes()),
        );
    }
    if let Some(global_seqno) = props.external_sst_global_seqno {
        entries.put(KEY_EXTERNAL_VERSION, u32_to_le_bytes(EXTERNAL_SST_VERSION));
        entries.put(KEY_EXTERNAL_GLOBAL_SEQNO, u64_to_le_bytes(global_seqno));
    }
    assert(entries.added@ =~= property_list(props@));
    entries.into_block(usize::MAX)
}

fn varint64_bytes(v: u64) -> (r: Vec<u8>)
    ensures
        r@ == varint(v as nat),
{
    let mut out: Vec<u8> = Vec::new();
    put_varint64(&mut out, v);
    assert(out@ =~= varint(v as nat));
    out
}

/// The bytes of a handle in the metaindex.
pub open spec fn handle_bytes(handle: BlockHandle) -> Seq<u8> {
    varint(handle.offset as nat) + varint(handle.size as nat)
}

/// Named handles as the entries of a block.
pub open spec fn meta_entries(handles: Seq<(&str, BlockHandle)>) -> Seq<Entry> {
    Seq::new(
        handles.len(),
        |i: int| (handles[i].0.spec_bytes(), handle_bytes(handles[i].1)),
    )
}

/// The metaindex block: every entry is a restart interval of its own.
pub open spec fn metaindex_block(handles: Seq<(&str, BlockHandle)>) -> Seq<u8> {
    data_block(1, sorted_by_name(meta_entries(handles)))
}

/// Builds the metaindex block, which leads from names to handles.
pub fn build_metaindex_block(entries: &[(&str, BlockHandle)]) -> (r: Vec<u8>)
    ensures
        r@ == metaindex_block(entries@),
{
    let mut named = NamedEntries::new();
    let mut i: usize = 0;
    assert(meta_entries(entries@).take(0) =~= Seq::<Entry>::empty());
    while i < entries.len()
        invariant
            i <= entries@.len(),
            named.inv(),
            named.added@ == meta_entries(entries@).take(i as int),
        decreases entries@.len() - i,
    {
        let (name, handle) = entries[i];
        let mut value: Vec<u8> = Vec::new();
        put_varint64(&mut value, handle.offset);
        put_varint64(&mut value, handle.size);
        assert(value@ =~= handle_bytes(handle));
        named.put(name, value);
        i = i + 1;
        assert(named.added@ =~= meta_entries(entries@).take(i as int));
    }
    assert(meta_entries(entries@).take(i as int) =~= meta_entries(entries@));
    named.into_block(1)
}

} // verus!
