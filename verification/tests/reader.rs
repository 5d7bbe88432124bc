use compactor::compaction::load_arena_source;
use compactor::entry::EntryList;
use compactor::error::FormatError;
use compactor::format::block::{encode_block_with_trailer, parse_block};
use compactor::format::block_builder::{BlockBuilder, IndexBlockBuilder};
use compactor::format::footer::{
    encode_footer_v6_plus, BlockHandle, ChecksumType, BLOCK_BASED_TABLE_MAGIC, FOOTER_TAIL_LEN,
};
use compactor::format::properties::build_metaindex_block;
use compactor::format::sst_builder::{build_sst, SstBuilderOptions};
use compactor::format::varint::put_varint64;
use compactor::fuzzer::make_internal_key;
use compactor::merge::MergeSource;
use compactor::sst::{find_meta_handle, request_block, OpenStep, ReadRequest, SstOpening, SstReader};

fn sample_entries(n: usize) -> Vec<(Vec<u8>, Vec<u8>)> {
    (0..n)
        .map(|i| {
            (
                make_internal_key(&format!("key{:05}", i), i as u64 + 1, 1),
                format!("value number {}", i).into_bytes(),
            )
        })
        .collect()
}

fn all_entries(file: &[u8]) -> Result<Vec<(Vec<u8>, Vec<u8>)>, FormatError> {
    let reader = SstReader::open(file)?;
    let mut got = Vec::new();
    reader.for_each_entry(file, &mut |k: &[u8], v: &[u8]| {
        got.push((k.to_vec(), v.to_vec()));
    })?;
    Ok(got)
}

fn part(file: &[u8], request: ReadRequest) -> Vec<u8> {
    let start = request.offset as usize;
    file[start..start + request.len].to_vec()
}

/// A file of the given format made of a data block, an index block and a
/// metaindex block, with the handles of the last two.
fn assemble(metaindex: Option<&str>) -> (Vec<u8>, BlockHandle, BlockHandle) {
    let ty = ChecksumType::XxH3;
    let mut file = Vec::new();
    let mut data = BlockBuilder::new(16);
    data.add(&make_internal_key("a", 1, 1), b"1");
    let raw = data.finish();
    let data_handle = BlockHandle {
        offset: 0,
        size: raw.len() as u64,
    };
    file.extend(encode_block_with_trailer(raw, 0, ty, 0));

    let mut index = IndexBlockBuilder::new(1);
    index.add(&make_internal_key("a", 1, 1), data_handle);
    let raw = index.finish();
    let index_handle = BlockHandle {
        offset: file.len() as u64,
        size: raw.len() as u64,
    };
    file.extend(encode_block_with_trailer(raw, index_handle.offset, ty, 0));

    let raw = match metaindex {
        Some(name) => build_metaindex_block(&[(name, index_handle)]),
        None => build_metaindex_block(&[]),
    };
    let metaindex_handle = BlockHandle {
        offset: file.len() as u64,
        size: raw.len() as u64,
    };
    file.extend(encode_block_with_trailer(
        raw,
        metaindex_handle.offset,
        ty,
        0,
    ));
    (file, index_handle, metaindex_handle)
}

#[test]
fn a_table_is_read_back() {
    for n in [0, 1, 15, 16, 17, 500] {
        let entries = sample_entries(n);
        for base_context_checksum in [0, 1, 0xdead_beef] {
            let opts = SstBuilderOptions {
                base_context_checksum,
                ..Default::default()
            };
            assert_eq!(
                all_entries(&build_sst(&entries, &opts)),
                Ok(entries.clone())
            );
        }
    }
}

#[test]
fn a_table_is_read_back_whatever_its_checksum() {
    let entries = sample_entries(300);
    for checksum_type in [
        ChecksumType::NoChecksum,
        ChecksumType::Crc32c,
        ChecksumType::XxHash,
        ChecksumType::XxHash64,
        ChecksumType::XxH3,
    ] {
        let opts = SstBuilderOptions {
            checksum_type,
            ..Default::default()
        };
        let file = build_sst(&entries, &opts);
        assert_eq!(all_entries(&file), Ok(entries.clone()));
        let reader = SstReader::open(&file).ok().unwrap();
        assert_eq!(reader.footer.checksum_type, checksum_type);
        assert_eq!(reader.footer.format_version, 7);
        assert_eq!(reader.footer.table_magic_number, BLOCK_BASED_TABLE_MAGIC);
    }
}

#[test]
fn tables_for_ingestion_have_no_sequence_numbers() {
    let entries = sample_entries(40);
    let opts = SstBuilderOptions {
        external_sst_global_seqno: Some(0),
        ..Default::default()
    };
    let got = all_entries(&build_sst(&entries, &opts)).unwrap();
    assert_eq!(got.len(), 40);
    for (i, (key, value)) in got.iter().enumerate() {
        assert_eq!(*key, make_internal_key(&format!("key{:05}", i), 0, 1));
        assert_eq!(*value, entries[i].1);
    }
}

#[test]
fn entries_are_collected() {
    let entries = sample_entries(60);
    let file = build_sst(&entries, &SstBuilderOptions::default());
    let reader = SstReader::open(&file).ok().unwrap();
    let mut list = EntryList::new();
    assert_eq!(reader.for_each_entry(&file, &mut list), Ok(()));
    assert_eq!(list.entries, entries);
}

#[test]
fn opening_asks_for_one_part_after_the_other() {
    let entries = sample_entries(200);
    let file = build_sst(&entries, &SstBuilderOptions::default());
    let size = file.len() as u64;

    let (opening, request) = SstOpening::start(size).ok().unwrap();
    assert_eq!(
        request,
        ReadRequest {
            offset: size - 53,
            len: 53,
        }
    );
    let (opening, request) = match opening.resume(part(&file, request)) {
        Ok(OpenStep::Read(opening, request)) => (opening, request),
        _ => panic!("the metaindex block should be asked for"),
    };
    let (opening, request) = match opening.resume(part(&file, request)) {
        Ok(OpenStep::Read(opening, request)) => (opening, request),
        _ => panic!("the index block should be asked for"),
    };
    let reader = match opening.resume(part(&file, request)) {
        Ok(OpenStep::Opened(reader)) => reader,
        _ => panic!("the table should be open"),
    };

    let mut got = Vec::new();
    let mut scratch = Vec::new();
    let handles = reader.data_handles().unwrap();
    assert!(handles.len() > 1);
    for handle in handles {
        let request = request_block(handle, size).unwrap();
        let visited = reader.visit_block(
            part(&file, request),
            handle,
            &mut scratch,
            &mut |k: &[u8], v: &[u8]| got.push((k.to_vec(), v.to_vec())),
        );
        assert_eq!(visited, Ok(()));
    }
    assert_eq!(got, entries);
}

#[test]
fn meta_blocks_are_found_by_name() {
    let file = build_sst(&sample_entries(10), &SstBuilderOptions::default());
    let reader = SstReader::open(&file).ok().unwrap();
    let index = reader
        .find_meta_block_handle("rocksdb.index")
        .unwrap()
        .unwrap();
    let properties = reader
        .find_meta_block_handle("rocksdb.properties")
        .unwrap()
        .unwrap();
    assert!(index.offset < properties.offset);
    assert_eq!(reader.find_meta_block_handle("rocksdb.filter"), Ok(None));
}

#[test]
fn meta_values_that_are_no_handles_are_passed_over() {
    let mut builder = BlockBuilder::new(16);
    builder.add(b"name", b"\x80");
    let mut value = Vec::new();
    put_varint64(&mut value, 3);
    put_varint64(&mut value, 4);
    builder.add(b"name", &value);
    builder.add(b"name", b"\x09\x09");
    let block = parse_block(builder.finish()).ok().unwrap();
    assert_eq!(
        find_meta_handle(&block, "name"),
        Ok(Some(BlockHandle { offset: 3, size: 4 }))
    );
    assert_eq!(find_meta_handle(&block, "other"), Ok(None));
}

#[test]
fn short_files_are_refused() {
    assert_eq!(
        SstReader::open(&[0; 52]).err(),
        Some(FormatError::FileTooShort)
    );
    assert_eq!(SstReader::open(&[]).err(), Some(FormatError::FileTooShort));
    assert_eq!(
        load_arena_source(&[]).err(),
        Some(FormatError::FileTooShort)
    );
}

#[test]
fn tables_without_an_index_are_refused() {
    let (mut file, _, handle) = assemble(None);
    let at = file.len() as u64;
    file.extend(encode_footer_v6_plus(6, ChecksumType::XxH3, handle, 0, at));
    assert_eq!(
        SstReader::open(&file).err(),
        Some(FormatError::IndexHandleMissing)
    );
}

#[test]
fn the_index_of_newer_tables_is_named_by_the_metaindex() {
    let (mut file, _, handle) = assemble(Some("rocksdb.index"));
    let at = file.len() as u64;
    file.extend(encode_footer_v6_plus(6, ChecksumType::XxH3, handle, 0, at));
    assert_eq!(
        all_entries(&file),
        Ok(vec![(make_internal_key("a", 1, 1), b"1".to_vec())])
    );
}

#[test]
fn the_index_of_older_tables_is_named_by_the_footer() {
    let (mut file, index, metaindex) = assemble(None);
    let mut tail = vec![ChecksumType::XxH3.to_byte()];
    for number in [metaindex.offset, metaindex.size, index.offset, index.size] {
        put_varint64(&mut tail, number);
    }
    tail.resize(41, 0);
    tail.extend_from_slice(&5u32.to_le_bytes());
    tail.extend_from_slice(&BLOCK_BASED_TABLE_MAGIC.to_le_bytes());
    assert_eq!(tail.len(), FOOTER_TAIL_LEN);
    file.extend(tail);
    assert_eq!(
        all_entries(&file),
        Ok(vec![(make_internal_key("a", 1, 1), b"1".to_vec())])
    );
}

#[test]
fn blocks_outside_the_file_are_refused() {
    assert_eq!(
        request_block(
            BlockHandle {
                offset: 10,
                size: 5,
            },
            20
        ),
        Ok(ReadRequest {
            offset: 10,
            len: 10,
        })
    );
    assert_eq!(
        request_block(
            BlockHandle {
                offset: 11,
                size: 5,
            },
            20
        ),
        Err(FormatError::BlockOutOfFile { offset: 11 })
    );
    assert_eq!(
        request_block(
            BlockHandle {
                offset: u64::MAX,
                size: u64::MAX,
            },
            u64::MAX
        ),
        Err(FormatError::BlockOutOfFile { offset: u64::MAX })
    );
}

#[test]
fn broken_data_blocks_are_noticed() {
    let mut file = build_sst(&sample_entries(500), &SstBuilderOptions::default());
    file[3] ^= 1;
    assert!(matches!(
        all_entries(&file),
        Err(FormatError::BlockChecksumMismatch { offset: 0, .. })
    ));
    assert!(matches!(
        load_arena_source(&file).err(),
        Some(FormatError::BlockChecksumMismatch { offset: 0, .. })
    ));
}

#[test]
fn a_table_becomes_a_source() {
    let entries = sample_entries(120);
    let file = build_sst(&entries, &SstBuilderOptions::default());
    let mut source = load_arena_source(&file).ok().unwrap();
    assert_eq!(source.len(), 120);
    assert_eq!(source.total_len(), 120);
    for (key, value) in &entries {
        assert_eq!(source.peek(), Some((key.as_slice(), value.as_slice())));
        source.advance();
    }
    assert_eq!(source.peek(), None);
    assert_eq!(source.len(), 0);
}
