use compactor::format::block::{decode_block_contents, for_each_entry, parse_block};
use compactor::format::footer::BlockHandle;
use compactor::format::properties::{
    build_metaindex_block, build_properties_block, PropertiesInput,
};
use compactor::format::sst_builder::{build_sst, SstBuilderOptions};
use compactor::format::varint::get_varint64;
use compactor::fuzzer::make_internal_key;
use compactor::sst::SstReader;

fn block_entries(contents: Vec<u8>) -> Vec<(String, Vec<u8>)> {
    let block = parse_block(contents).ok().unwrap();
    let mut scratch = Vec::new();
    let mut got = Vec::new();
    for_each_entry(&block, &mut scratch, &mut |k: &[u8], v: &[u8]| {
        got.push((String::from_utf8(k.to_vec()).unwrap(), v.to_vec()));
    })
    .unwrap();
    got
}

/// The properties of a table.
fn properties_of(file: &[u8]) -> Vec<(String, Vec<u8>)> {
    let reader = SstReader::open(file).ok().unwrap();
    let handle = reader
        .find_meta_block_handle("rocksdb.properties")
        .unwrap()
        .unwrap();
    let start = handle.offset as usize;
    let raw = file[start..start + handle.size as usize + 5].to_vec();
    let contents = decode_block_contents(
        raw,
        handle,
        reader.footer.checksum_type,
        reader.footer.base_context_checksum,
    )
    .unwrap();
    block_entries(contents)
}

fn value_of<'a>(properties: &'a [(String, Vec<u8>)], name: &str) -> Option<&'a [u8]> {
    properties
        .iter()
        .find(|(n, _)| n == name)
        .map(|(_, v)| v.as_slice())
}

fn number_of(properties: &[(String, Vec<u8>)], name: &str) -> u64 {
    let mut pos = 0;
    get_varint64(value_of(properties, name).unwrap(), &mut pos).unwrap()
}

#[test]
fn properties_are_sorted_by_name() {
    let props = PropertiesInput {
        num_entries: 3,
        raw_key_size: 300,
        raw_value_size: 5,
        data_size: 128,
        index_size: 9,
        comparator_name: "order".to_string(),
        column_family_id: 2,
        column_family_name: "family".to_string(),
        external_sst_global_seqno: Some(7),
    };
    let got = block_entries(build_properties_block(&props));
    let want: Vec<(String, Vec<u8>)> = vec![
        ("rocksdb.block.based.table.index.type", vec![0, 0, 0, 0]),
        ("rocksdb.column.family.id", vec![2]),
        ("rocksdb.column.family.name", b"family".to_vec()),
        ("rocksdb.comparator", b"order".to_vec()),
        ("rocksdb.data.size", vec![0x80, 1]),
        (
            "rocksdb.external_sst_file.global_seqno",
            vec![7, 0, 0, 0, 0, 0, 0, 0],
        ),
        ("rocksdb.external_sst_file.version", vec![2, 0, 0, 0]),
        ("rocksdb.index.key.is.user.key", vec![0]),
        ("rocksdb.index.size", vec![9]),
        ("rocksdb.index.value.is.delta.encoded", vec![1]),
        ("rocksdb.num.entries", vec![3]),
        ("rocksdb.raw.key.size", vec![0xac, 2]),
        ("rocksdb.raw.value.size", vec![5]),
    ]
    .into_iter()
    .map(|(name, value)| (name.to_string(), value))
    .collect();
    assert_eq!(got, want);
}

#[test]
fn properties_that_do_not_apply_are_left_out() {
    let got = block_entries(build_properties_block(&PropertiesInput::default()));
    assert_eq!(value_of(&got, "rocksdb.external_sst_file.version"), None);
    assert_eq!(
        value_of(&got, "rocksdb.external_sst_file.global_seqno"),
        None
    );
    assert_eq!(number_of(&got, "rocksdb.num.entries"), 0);
}

#[test]
fn tables_state_what_they_hold() {
    let entries: Vec<(Vec<u8>, Vec<u8>)> = (0..300u64)
        .map(|i| {
            (
                make_internal_key(&format!("key{:05}", i), i + 1, 1),
                vec![b'v'; (i % 50) as usize],
            )
        })
        .collect();
    let opts = SstBuilderOptions {
        column_family_id: 4,
        column_family_name: "pets".to_string(),
        ..Default::default()
    };
    let file = build_sst(&entries, &opts);
    let props = properties_of(&file);
    let keys: usize = entries.iter().map(|(k, _)| k.len()).sum();
    let values: usize = entries.iter().map(|(_, v)| v.len()).sum();
    assert_eq!(number_of(&props, "rocksdb.num.entries"), 300);
    assert_eq!(number_of(&props, "rocksdb.raw.key.size"), keys as u64);
    assert_eq!(number_of(&props, "rocksdb.raw.value.size"), values as u64);
    assert_eq!(number_of(&props, "rocksdb.column.family.id"), 4);
    assert_eq!(
        value_of(&props, "rocksdb.column.family.name"),
        Some(&b"pets"[..])
    );
    assert_eq!(
        value_of(&props, "rocksdb.comparator"),
        Some(&b"leveldb.BytewiseComparator"[..])
    );
    let reader = SstReader::open(&file).ok().unwrap();
    let index = reader
        .find_meta_block_handle("rocksdb.index")
        .unwrap()
        .unwrap();
    assert_eq!(number_of(&props, "rocksdb.data.size"), index.offset);
    assert_eq!(value_of(&props, "rocksdb.external_sst_file.version"), None);
}

#[test]
fn tables_for_ingestion_say_so() {
    let opts = SstBuilderOptions {
        external_sst_global_seqno: Some(0),
        ..Default::default()
    };
    let file = build_sst(&[(make_internal_key("a", 9, 1), b"1".to_vec())], &opts);
    let props = properties_of(&file);
    assert_eq!(
        value_of(&props, "rocksdb.external_sst_file.version"),
        Some(&[2, 0, 0, 0][..])
    );
    assert_eq!(
        value_of(&props, "rocksdb.external_sst_file.global_seqno"),
        Some(&[0; 8][..])
    );
}

#[test]
fn metaindex_entries_are_sorted_by_name() {
    let first = BlockHandle { offset: 1, size: 2 };
    let second = BlockHandle {
        offset: 300,
        size: 4,
    };
    let got = block_entries(build_metaindex_block(&[("b", first), ("a", second)]));
    assert_eq!(
        got,
        vec![
            ("a".to_string(), vec![0xac, 2, 4]),
            ("b".to_string(), vec![1, 2]),
        ]
    );
}

#[test]
fn data_blocks_are_closed_at_their_target_size() {
    // With its header an entry has 116 bytes at a restart point and some less
    // in between, so a block takes about forty.
    let entries: Vec<(Vec<u8>, Vec<u8>)> = (0..400u64)
        .map(|i| {
            (
                make_internal_key(&format!("key{:03}", i), 1, 1),
                vec![b'v'; 100],
            )
        })
        .collect();
    let file = build_sst(&entries, &SstBuilderOptions::default());
    let reader = SstReader::open(&file).ok().unwrap();
    let handles = reader.data_handles().unwrap();
    let mut at = 0;
    for (i, handle) in handles.iter().enumerate() {
        assert_eq!(handle.offset, at);
        if i + 1 < handles.len() {
            assert!(handle.size >= 4096);
            assert!(handle.size < 4096 + 200);
        }
        at = handle.offset + handle.size + 5;
    }
    let index = reader
        .find_meta_block_handle("rocksdb.index")
        .unwrap()
        .unwrap();
    assert_eq!(index.offset, at);
}
