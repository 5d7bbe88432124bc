use compactor::error::FormatError;
use compactor::format::block::{block_read_len, for_each_entry, for_each_index_entry, parse_block};
use compactor::format::block_builder::{BlockBuilder, IndexBlockBuilder};
use compactor::format::footer::BlockHandle;

/// Entry bytes with one restart point at their start.
fn block_of(entry_bytes: &[u8]) -> Vec<u8> {
    let mut block = entry_bytes.to_vec();
    block.extend_from_slice(&0u32.to_le_bytes());
    block.extend_from_slice(&1u32.to_le_bytes());
    block
}

fn entries_in(contents: Vec<u8>) -> (Vec<(Vec<u8>, Vec<u8>)>, Result<(), FormatError>) {
    let block = parse_block(contents).ok().unwrap();
    let mut scratch = Vec::new();
    let mut got = Vec::new();
    let result = for_each_entry(&block, &mut scratch, &mut |k: &[u8], v: &[u8]| {
        got.push((k.to_vec(), v.to_vec()));
    });
    (got, result)
}

fn handles_in(contents: Vec<u8>) -> (Vec<(Vec<u8>, BlockHandle)>, Result<(), FormatError>) {
    let block = parse_block(contents).ok().unwrap();
    let mut scratch = Vec::new();
    let mut got = Vec::new();
    let result = for_each_index_entry(&block, &mut scratch, &mut |k: &[u8], h: BlockHandle| {
        got.push((k.to_vec(), h));
    });
    (got, result)
}

#[test]
fn data_block_bytes() {
    let mut builder = BlockBuilder::new(2);
    assert!(builder.is_empty());
    assert_eq!(builder.current_size_estimate(), 8);
    builder.add(b"apple", b"1");
    builder.add(b"apricot", b"22");
    assert!(!builder.is_empty());
    let size = builder.current_size_estimate();
    assert_eq!(size, 9 + 10 + 8);
    builder.add(b"avocado", b"");
    let mut want = Vec::new();
    want.extend_from_slice(b"\x00\x05\x01apple1");
    want.extend_from_slice(b"\x02\x05\x02ricot22");
    want.extend_from_slice(b"\x00\x07\x00avocado");
    want.extend_from_slice(&0u32.to_le_bytes());
    want.extend_from_slice(&19u32.to_le_bytes());
    want.extend_from_slice(&2u32.to_le_bytes());
    assert_eq!(builder.current_size_estimate(), want.len());
    assert_eq!(builder.finish(), want);
}

#[test]
fn empty_blocks() {
    let raw = BlockBuilder::new(16).finish();
    assert_eq!(raw, [0, 0, 0, 0, 1, 0, 0, 0]);
    assert_eq!(entries_in(raw), (vec![], Ok(())));
    let raw = IndexBlockBuilder::new(1).finish();
    assert_eq!(handles_in(raw), (vec![], Ok(())));
}

#[test]
fn index_block_bytes() {
    let mut builder = IndexBlockBuilder::new(3);
    assert!(builder.is_empty());
    builder.add(
        b"aaa",
        BlockHandle {
            offset: 0,
            size: 100,
        },
    );
    builder.add(
        b"aab",
        BlockHandle {
            offset: 105,
            size: 99,
        },
    );
    // Nothing is shared, so the handle is written in full.
    builder.add(
        b"b",
        BlockHandle {
            offset: 209,
            size: 300,
        },
    );
    assert!(!builder.is_empty());
    let mut want = Vec::new();
    want.extend_from_slice(b"\x00\x03aaa\x00\x64");
    // One byte less: the difference -1 is written as 1.
    want.extend_from_slice(b"\x02\x01b\x01");
    want.extend_from_slice(b"\x00\x01b\xd1\x01\xac\x02");
    want.extend_from_slice(&0u32.to_le_bytes());
    want.extend_from_slice(&1u32.to_le_bytes());
    assert_eq!(builder.current_size_estimate(), want.len());
    let raw = builder.finish();
    assert_eq!(raw, want);
    let (got, result) = handles_in(raw);
    assert_eq!(result, Ok(()));
    assert_eq!(
        got,
        vec![
            (
                b"aaa".to_vec(),
                BlockHandle {
                    offset: 0,
                    size: 100,
                }
            ),
            (
                b"aab".to_vec(),
                BlockHandle {
                    offset: 105,
                    size: 99,
                }
            ),
            (
                b"b".to_vec(),
                BlockHandle {
                    offset: 209,
                    size: 300,
                }
            ),
        ]
    );
}

#[test]
fn blocks_too_small_for_their_restarts_are_refused() {
    assert_eq!(
        parse_block(vec![0, 0, 0]).err(),
        Some(FormatError::BlockTooSmall)
    );
    assert_eq!(
        parse_block(vec![0, 0, 0, 2, 0, 0, 0]).err(),
        Some(FormatError::RestartsOutOfBounds)
    );
    assert_eq!(
        parse_block(vec![0xff; 4]).err(),
        Some(FormatError::RestartsOutOfBounds)
    );
    let block = parse_block(vec![7, 0, 0, 0, 1, 0, 0, 0]).ok().unwrap();
    assert_eq!(block.restarts, [7]);
    assert!(parse_block(vec![0; 4]).is_ok());
}

#[test]
fn keys_are_rebuilt_from_what_they_share() {
    let (got, result) = entries_in(block_of(b"\x00\x03\x01abc1\x02\x01\x00x\x03\x00\x01y"));
    assert_eq!(result, Ok(()));
    assert_eq!(
        got,
        vec![
            (b"abc".to_vec(), b"1".to_vec()),
            (b"abx".to_vec(), b"".to_vec()),
            (b"abx".to_vec(), b"y".to_vec()),
        ]
    );
}

#[test]
fn broken_entries_are_reported_after_the_good_ones() {
    let faults = [
        (&b"\x80"[..], FormatError::TruncatedShared),
        (b"\x00", FormatError::TruncatedUnshared),
        (b"\x00\x01", FormatError::TruncatedValueLength),
        (b"\x03\x01\x00z", FormatError::SharedExceedsLastKey),
        (b"\x00\x05\x00z", FormatError::TruncatedKeyDelta),
        (b"\x00\x01\x02zz", FormatError::TruncatedValue),
    ];
    for (bytes, fault) in faults {
        let mut data = b"\x00\x02\x00ok".to_vec();
        data.extend_from_slice(bytes);
        assert_eq!(
            entries_in(block_of(&data)),
            (vec![(b"ok".to_vec(), b"".to_vec())], Err(fault))
        );
    }
}

#[test]
fn broken_index_entries_are_reported_after_the_good_ones() {
    let faults = [
        (&b"\x80"[..], FormatError::TruncatedShared),
        (b"\x00", FormatError::TruncatedUnshared),
        (b"\x03\x01z\x00", FormatError::SharedExceedsLastKey),
        (b"\x00\x05z", FormatError::TruncatedKeyDelta),
        (b"\x00\x01z\x80", FormatError::TruncatedHandleOffset),
        (b"\x00\x01z\x09\x80", FormatError::TruncatedHandleSize),
        (b"\x01\x01z\x80", FormatError::TruncatedSizeDelta),
    ];
    for (bytes, fault) in faults {
        let mut data = b"\x00\x02ok\x00\x0a".to_vec();
        data.extend_from_slice(bytes);
        assert_eq!(
            handles_in(block_of(&data)),
            (
                vec![(
                    b"ok".to_vec(),
                    BlockHandle {
                        offset: 0,
                        size: 10,
                    }
                )],
                Err(fault)
            )
        );
    }
}

#[test]
fn handles_beyond_counting_are_refused() {
    let mut builder = IndexBlockBuilder::new(2);
    builder.add(
        b"ab",
        BlockHandle {
            offset: u64::MAX - 4,
            size: 0,
        },
    );
    builder.add(b"ac", BlockHandle { offset: 0, size: 0 });
    let (got, result) = handles_in(builder.finish());
    assert_eq!(got.len(), 1);
    assert_eq!(result, Err(FormatError::HandleOverflow));
}

#[test]
fn read_length_counts_the_trailer() {
    assert_eq!(
        block_read_len(BlockHandle {
            offset: 7,
            size: 100,
        }),
        105
    );
}

/// The key that is left behind by a visit of the entries.
fn key_left(entry_bytes: &[u8]) -> Vec<u8> {
    let block = parse_block(block_of(entry_bytes)).ok().unwrap();
    let mut scratch = b"from before".to_vec();
    let _ = for_each_entry(&block, &mut scratch, &mut |_k: &[u8], _v: &[u8]| {});
    scratch
}

/// The key that is left behind by a visit of the index entries.
fn index_key_left(entry_bytes: &[u8]) -> Vec<u8> {
    let block = parse_block(block_of(entry_bytes)).ok().unwrap();
    let mut scratch = b"from before".to_vec();
    let _ = for_each_index_entry(&block, &mut scratch, &mut |_k: &[u8], _h: BlockHandle| {});
    scratch
}

#[test]
fn the_last_key_read_is_left_in_the_buffer() {
    assert_eq!(key_left(b""), b"");
    assert_eq!(key_left(b"\x00\x05\x01apple1"), b"apple");
    // The second entry has no value, then no whole key, then a key that shares
    // too much.
    assert_eq!(
        key_left(b"\x00\x05\x01apple1\x02\x05\x02ricot2"),
        b"apricot"
    );
    assert_eq!(
        key_left(b"\x00\x05\x01apple1\x02\x05\x02rico"),
        b"apple"
    );
    assert_eq!(
        key_left(b"\x00\x05\x01apple1\x06\x05\x02ricot22"),
        b"apple"
    );
}

#[test]
fn the_last_index_key_read_is_left_in_the_buffer() {
    assert_eq!(index_key_left(b""), b"");
    assert_eq!(index_key_left(b"\x00\x03aaa\x00\x64"), b"aaa");
    // Without a size, and without a difference of sizes.
    assert_eq!(index_key_left(b"\x00\x03aaa\x00"), b"aaa");
    assert_eq!(index_key_left(b"\x00\x03aaa\x00\x64\x02\x01b"), b"aab");
    // Without the whole key.
    assert_eq!(index_key_left(b"\x00\x03aaa\x00\x64\x02\x02b"), b"aaa");
}
