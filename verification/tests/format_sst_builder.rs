use compactor::format::block;
use compactor::format::footer::{self, BlockHandle};
use compactor::format::sst_builder::{build_sst, SstBuilderOptions};
use compactor::format::varint;

fn pack_seq_and_type(seq: u64, value_type: u8) -> [u8; 8] {
    let packed = (seq << 8) | value_type as u64;
    packed.to_le_bytes()
}

#[test]
fn build_sst_smoke_test() {
    let mut entries = Vec::new();
    for i in 0..500u32 {
        let user_key = format!("key{:05}", i).into_bytes();
        let mut internal_key = user_key;
        internal_key.extend_from_slice(&pack_seq_and_type(0, 1));
        let value = format!("value_{:05}_padding_to_make_it_longer", i).into_bytes();
        entries.push((internal_key, value));
    }

    let opts = SstBuilderOptions {
        base_context_checksum: 0xdead_beef,
        ..Default::default()
    };
    let sst_bytes = build_sst(&entries, &opts);

    assert!(!sst_bytes.is_empty());
}

/// A seek goes to the first block whose separator is not below the target, so
/// a separator below a key of its own block would hide that key.
#[test]
fn index_separators_cover_their_blocks() {
    let mut entries = Vec::new();
    for i in 0..2000u32 {
        let mut internal_key = format!("key{:08}", i).into_bytes();
        internal_key.extend_from_slice(&pack_seq_and_type(u64::from(i) + 1, 1));
        entries.push((internal_key, vec![b'v'; 512]));
    }

    let opts = SstBuilderOptions {
        base_context_checksum: 0xdead_beef,
        ..Default::default()
    };
    let sst = build_sst(&entries, &opts);

    let tail = &sst[sst.len() - footer::FOOTER_TAIL_LEN..];
    let ft = footer::decode_footer(tail, sst.len() as u64).expect("decode footer");

    let read_block = |h: BlockHandle| -> block::ParsedBlock {
        let start = h.offset as usize;
        let raw = sst[start..start + block::block_read_len(h)].to_vec();
        let contents =
            block::decode_block_contents(raw, h, ft.checksum_type, ft.base_context_checksum)
                .expect("decode block");
        block::parse_block(contents).ok().expect("parse block")
    };

    let metaindex = read_block(ft.metaindex_handle);
    let index_handle = match ft.index_handle {
        Some(h) => h,
        None => {
            let mut found = None;
            let mut scratch = Vec::new();
            block::for_each_entry(
                &metaindex,
                &mut scratch,
                &mut |key: &[u8], value: &[u8]| {
                    if key == b"rocksdb.index" {
                        let mut pos = 0usize;
                        let offset = varint::get_varint64(value, &mut pos).expect("handle offset");
                        let size = varint::get_varint64(value, &mut pos).expect("handle size");
                        found = Some(BlockHandle { offset, size });
                    }
                },
            )
            .expect("iterate metaindex");
            found.expect("index handle in metaindex")
        }
    };

    let index = read_block(index_handle);
    let mut separators: Vec<(Vec<u8>, BlockHandle)> = Vec::new();
    let mut scratch = Vec::new();
    block::for_each_index_entry(
        &index,
        &mut scratch,
        &mut |key: &[u8], handle: BlockHandle| {
            separators.push((key.to_vec(), handle));
        },
    )
    .expect("iterate index");

    assert!(
        separators.len() > 1,
        "test needs a multi-block file to be meaningful, got {} block(s)",
        separators.len()
    );

    for (separator, handle) in &separators {
        let data = read_block(*handle);
        let mut keys = Vec::new();
        let mut s = Vec::new();
        block::for_each_entry(&data, &mut s, &mut |key: &[u8], _value: &[u8]| {
            keys.push(key.to_vec())
        })
        .expect("iterate data block");
        let last = keys.last().expect("non-empty data block");
        assert!(
            separator >= last,
            "index separator {:?} is smaller than the last key {:?} in the block it points at",
            String::from_utf8_lossy(&separator[..separator.len() - 8]),
            String::from_utf8_lossy(&last[..last.len() - 8]),
        );
    }
}
