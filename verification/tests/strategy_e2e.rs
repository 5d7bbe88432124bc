use compactor::compaction::{
    compact_with_strategy, BottommostStrategy, CompactionOptions, PassthroughStrategy,
    SnapshotAwareStrategy,
};
use compactor::format::block::{self, ParsedBlock};
use compactor::format::footer::{self, BlockHandle};
use compactor::format::internal_key::{split, ValueType};
use compactor::format::sst_builder::SstBuilderOptions;
use compactor::format::varint::get_varint64;
use compactor::merge::ArenaSourceBuilder;

fn internal_key(user_key: &str, seq: u64, value_type: u8) -> Vec<u8> {
    let mut k = user_key.as_bytes().to_vec();
    let packed = (seq << 8) | value_type as u64;
    k.extend_from_slice(&packed.to_le_bytes());
    k
}

const TYPE_VALUE: u8 = 1;
const TYPE_DELETION: u8 = 0;

fn opts() -> CompactionOptions {
    CompactionOptions {
        sst_builder: SstBuilderOptions {
            base_context_checksum: 0xABCD1234,
            ..Default::default()
        },
    }
}

/// A snapshot stands between two versions of a key: both are kept, while the
/// default strategy drops the older one.
#[test]
fn snapshot_aware_keeps_both_current_and_snapshot_visible_versions() {
    let mut a = ArenaSourceBuilder::new();
    a.push(&internal_key("apple", 2, TYPE_VALUE), b"old_apple");
    let source_a = a.build();

    let mut b = ArenaSourceBuilder::new();
    b.push(&internal_key("apple", 10, TYPE_VALUE), b"new_apple");
    let source_b = b.build();

    let mut strategy = SnapshotAwareStrategy::new(5);
    let output = compact_with_strategy(vec![source_a, source_b], &opts(), &mut strategy)
        .expect("compaction should succeed");
    let entries = parse_scan_output(&output);
    assert_eq!(
        entries,
        vec![
            ("apple".to_string(), "new_apple".to_string()),
            ("apple".to_string(), "old_apple".to_string()),
        ],
        "snapshot-aware compaction must keep both the newest and the snapshot-visible version"
    );

    let mut a2 = ArenaSourceBuilder::new();
    a2.push(&internal_key("apple", 2, TYPE_VALUE), b"old_apple");
    let mut b2 = ArenaSourceBuilder::new();
    b2.push(&internal_key("apple", 10, TYPE_VALUE), b"new_apple");
    let mut bottommost = BottommostStrategy;
    let output2 = compact_with_strategy(vec![a2.build(), b2.build()], &opts(), &mut bottommost)
        .expect("compaction should succeed");
    let entries2 = parse_scan_output(&output2);
    assert_eq!(
        entries2,
        vec![("apple".to_string(), "new_apple".to_string())],
        "bottommost compaction of the identical input must drop the older version"
    );
}

/// A tombstone that a snapshot sees is kept, though it is not the newest
/// version.
#[test]
fn snapshot_aware_keeps_tombstone_visible_to_snapshot_end_to_end() {
    let mut a = ArenaSourceBuilder::new();
    a.push(&internal_key("key", 10, TYPE_VALUE), b"current_value");
    a.push(&internal_key("key", 4, TYPE_DELETION), b"");
    a.push(&internal_key("key", 2, TYPE_VALUE), b"ancient_value");
    let source = a.build();

    let mut strategy = SnapshotAwareStrategy::new(5);
    let output = compact_with_strategy(vec![source], &opts(), &mut strategy)
        .expect("compaction should succeed");
    let entries = parse_scan_output(&output);
    assert_eq!(
        entries,
        vec![("key".to_string(), "current_value".to_string())]
    );

    let raw_entries = parse_all_entries_including_tombstones(&output);
    assert_eq!(
        raw_entries.len(),
        2,
        "expected current value + the snapshot-visible tombstone, got {:?}",
        raw_entries
    );
    assert_eq!(
        raw_entries,
        vec![("key".to_string(), 10, 1), ("key".to_string(), 4, 0)]
    );
}

/// Nothing is dropped, neither versions nor tombstones.
#[test]
fn passthrough_keeps_all_versions_end_to_end() {
    let mut a = ArenaSourceBuilder::new();
    a.push(&internal_key("k", 3, TYPE_VALUE), b"v3");
    a.push(&internal_key("k", 2, TYPE_VALUE), b"v2");
    a.push(&internal_key("k", 1, TYPE_DELETION), b"");
    let source = a.build();

    let mut strategy = PassthroughStrategy;
    let output = compact_with_strategy(vec![source], &opts(), &mut strategy)
        .expect("compaction should succeed");
    let raw_entries = parse_all_entries_including_tombstones(&output);
    assert_eq!(
        raw_entries.len(),
        3,
        "passthrough must keep every entry, got {:?}",
        raw_entries
    );
}

/// The user key, sequence number and type byte of every entry.
fn parse_all_entries_including_tombstones(bytes: &[u8]) -> Vec<(String, u64, u8)> {
    read_table(bytes, |k, _v| {
        let ik = split(k).ok().expect("valid internal key");
        let ty_byte = match ik.value_type {
            ValueType::Deletion => 0u8,
            ValueType::Value => 1u8,
            _ => 255u8,
        };
        Some((
            String::from_utf8_lossy(ik.user_key).to_string(),
            ik.sequence,
            ty_byte,
        ))
    })
}

/// The user keys and values of the entries that are values.
fn parse_scan_output(bytes: &[u8]) -> Vec<(String, String)> {
    read_table(bytes, |k, v| {
        let ik = split(k).ok().expect("valid internal key");
        if matches!(ik.value_type, ValueType::Value) {
            Some((
                String::from_utf8_lossy(ik.user_key).to_string(),
                String::from_utf8_lossy(v).to_string(),
            ))
        } else {
            None
        }
    })
}

/// Walks a table with the block decoders and hands out what `take` makes of
/// each entry.
fn read_table<T>(bytes: &[u8], mut take: impl FnMut(&[u8], &[u8]) -> Option<T>) -> Vec<T> {
    let footer = footer::decode_footer(
        &bytes[bytes.len() - footer::FOOTER_TAIL_LEN..],
        bytes.len() as u64,
    )
    .expect("footer should decode");

    let read_block = |handle: BlockHandle| -> ParsedBlock {
        let start = handle.offset as usize;
        let raw = block::decode_block_contents(
            bytes[start..start + block::block_read_len(handle)].to_vec(),
            handle,
            footer.checksum_type,
            footer.base_context_checksum,
        )
        .expect("block should decode");
        block::parse_block(raw).ok().expect("block should parse")
    };

    let mut scratch = Vec::new();
    let mut index_handle = None;
    block::for_each_entry(
        &read_block(footer.metaindex_handle),
        &mut scratch,
        &mut |k: &[u8], v: &[u8]| {
            if k == b"rocksdb.index" {
                let mut pos = 0;
                let offset = get_varint64(v, &mut pos).unwrap();
                let size = get_varint64(v, &mut pos).unwrap();
                index_handle = Some(BlockHandle { offset, size });
            }
        },
    )
    .expect("metaindex iteration should succeed");
    let index = read_block(index_handle.expect("index handle must be present"));

    let mut data_handles = Vec::new();
    block::for_each_index_entry(&index, &mut scratch, &mut |_k: &[u8], h: BlockHandle| {
        data_handles.push(h)
    })
    .expect("index iteration should succeed");

    let mut out = Vec::new();
    for handle in data_handles {
        block::for_each_entry(
            &read_block(handle),
            &mut scratch,
            &mut |k: &[u8], v: &[u8]| {
                if let Some(item) = take(k, v) {
                    out.push(item);
                }
            },
        )
        .expect("data block iteration should succeed");
    }
    out
}
