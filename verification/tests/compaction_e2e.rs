use compactor::compaction::{compact, CompactionOptions};
use compactor::format::block::{self, ParsedBlock};
use compactor::format::footer::{self, BlockHandle};
use compactor::format::internal_key::split;
use compactor::format::sst_builder::SstBuilderOptions;
use compactor::format::varint::get_varint64;
use compactor::merge::ArenaSourceBuilder;

fn internal_key(user_key: &str, seq: u64, value_type: u8) -> Vec<u8> {
    let mut k = user_key.as_bytes().to_vec();
    let packed = (seq << 8) | value_type as u64;
    k.extend_from_slice(&packed.to_le_bytes());
    k
}

const TYPE_VALUE: u8 = 1;
const TYPE_DELETION: u8 = 0;

/// Two overlapping inputs: older values in one, newer values and a deletion in
/// the other. The newest version of each key is kept, and none of a key whose
/// newest version is a tombstone.
#[test]
fn compact_drops_obsolete_versions_and_tombstones() {
    let mut a = ArenaSourceBuilder::new();
    a.push(&internal_key("apple", 1, TYPE_VALUE), b"old_apple");
    a.push(&internal_key("banana", 1, TYPE_VALUE), b"old_banana");
    a.push(&internal_key("cherry", 1, TYPE_VALUE), b"only_cherry");
    let source_a = a.build();

    let mut b = ArenaSourceBuilder::new();
    b.push(&internal_key("apple", 5, TYPE_VALUE), b"new_apple");
    b.push(&internal_key("banana", 5, TYPE_DELETION), b"");
    let source_b = b.build();

    let opts = CompactionOptions {
        sst_builder: SstBuilderOptions {
            base_context_checksum: 0xC0FFEE,
            ..Default::default()
        },
    };

    let output_bytes = compact(vec![source_a, source_b], &opts).expect("compaction should succeed");
    assert!(!output_bytes.is_empty());

    let entries = parse_scan_output(&output_bytes);
    assert_eq!(
        entries,
        vec![
            ("apple".to_string(), "new_apple".to_string()),
            ("cherry".to_string(), "only_cherry".to_string()),
        ]
    );
}

/// The user keys and values of a table.
fn parse_scan_output(bytes: &[u8]) -> Vec<(String, String)> {
    read_table(bytes, |k, v| {
        let ik = split(k).ok().expect("valid internal key");
        Some((
            String::from_utf8_lossy(ik.user_key).to_string(),
            String::from_utf8_lossy(v).to_string(),
        ))
    })
}

/// Walks a table with the block decoders and hands out what `take` makes of
/// each entry.
fn read_table<T>(bytes: &[u8], mut take: impl FnMut(&[u8], &[u8]) -> Option<T>) -> Vec<T> {
    let footer = footer::decode_footer(
        &bytes[bytes.len() - footer::FOOTER_TAIL_LEN..],
        bytes.len() as u64,
    )
    .expect("footer should decode");

    let read_block = |handle: BlockHandle| -> ParsedBlock {
        let start = handle.offset as usize;
        let raw = block::decode_block_contents(
            bytes[start..start + block::block_read_len(handle)].to_vec(),
            handle,
            footer.checksum_type,
            footer.base_context_checksum,
        )
        .expect("block should decode");
        block::parse_block(raw).ok().expect("block should parse")
    };

    let mut scratch = Vec::new();
    let mut index_handle = None;
    block::for_each_entry(
        &read_block(footer.metaindex_handle),
        &mut scratch,
        &mut |k: &[u8], v: &[u8]| {
            if k == b"rocksdb.index" {
                let mut pos = 0;
                let offset = get_varint64(v, &mut pos).unwrap();
                let size = get_varint64(v, &mut pos).unwrap();
                index_handle = Some(BlockHandle { offset, size });
            }
        },
    )
    .expect("metaindex iteration should succeed");
    let index = read_block(index_handle.expect("index handle must be present"));

    let mut data_handles = Vec::new();
    block::for_each_index_entry(&index, &mut scratch, &mut |_k: &[u8], h: BlockHandle| {
        data_handles.push(h)
    })
    .expect("index iteration should succeed");

    let mut out = Vec::new();
    for handle in data_handles {
        block::for_each_entry(
            &read_block(handle),
            &mut scratch,
            &mut |k: &[u8], v: &[u8]| {
                if let Some(item) = take(k, v) {
                    out.push(item);
                }
            },
        )
        .expect("data block iteration should succeed");
    }
    out
}
