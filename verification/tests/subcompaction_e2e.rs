use compactor::compaction::{compact, compact_sharded, CompactionOptions};
use compactor::format::block::{self, ParsedBlock};
use compactor::format::footer::{self, BlockHandle};
use compactor::format::internal_key::split;
use compactor::format::sst_builder::SstBuilderOptions;
use compactor::format::varint::get_varint64;
use compactor::merge::cmp::compare_internal_keys;
use compactor::merge::{ArenaSource, ArenaSourceBuilder};
use rand::rngs::StdRng;
use rand::{Rng, SeedableRng};

fn internal_key(user_key: &str, seq: u64, value_type: u8) -> Vec<u8> {
    let mut k = user_key.as_bytes().to_vec();
    let packed = (seq << 8) | value_type as u64;
    k.extend_from_slice(&packed.to_le_bytes());
    k
}

const TYPE_VALUE: u8 = 1;
const TYPE_DELETION: u8 = 0;

fn build_test_entries(
    seed: u64,
    num_sources: usize,
    num_keys: usize,
) -> Vec<Vec<(Vec<u8>, Vec<u8>)>> {
    let mut rng = StdRng::seed_from_u64(seed);
    let mut per_source: Vec<Vec<(Vec<u8>, Vec<u8>)>> = vec![Vec::new(); num_sources];

    for i in 0..num_keys {
        let user_key = format!("key{:06}", i);
        let versions = rng.gen_range(1..=3);
        for v in 0..versions {
            let seq = (versions - v) as u64;
            let ty = if v == 0 && rng.gen_bool(0.1) {
                TYPE_DELETION
            } else {
                TYPE_VALUE
            };
            let src = rng.gen_range(0..num_sources);
            per_source[src].push((
                internal_key(&user_key, seq, ty),
                format!("value_{}_{}", i, seq).into_bytes(),
            ));
        }
    }

    for entries in &mut per_source {
        entries.sort_by(|a, b| compare_internal_keys(&a.0, &b.0));
    }
    per_source
}

fn to_arena_sources(per_source: &[Vec<(Vec<u8>, Vec<u8>)>]) -> Vec<ArenaSource> {
    per_source
        .iter()
        .map(|entries| {
            let mut builder = ArenaSourceBuilder::new();
            for (k, v) in entries {
                builder.push(k, v);
            }
            builder.build()
        })
        .collect()
}

/// Compacting in shards gives what compacting at once gives.
#[test]
fn sharded_compaction_matches_unsharded_for_various_shard_counts() {
    for seed in 0..10u64 {
        let per_source = build_test_entries(seed, 5, 400);
        let opts = CompactionOptions {
            sst_builder: SstBuilderOptions {
                base_context_checksum: 0xABCDEF,
                ..Default::default()
            },
        };

        let unsharded = compact(to_arena_sources(&per_source), &opts)
            .expect("unsharded compaction should succeed");
        let unsharded_entries = decode_all_entries(&[unsharded]);

        for &num_shards in &[1usize, 2, 3, 4, 7] {
            let shard_outputs =
                compact_sharded(to_arena_sources(&per_source), num_shards, opts.clone())
                    .expect("sharded compaction should succeed");
            let sharded_entries = decode_all_entries(&shard_outputs);

            assert_eq!(
                sharded_entries, unsharded_entries,
                "seed {}: num_shards={} produced different logical dataset than unsharded",
                seed, num_shards
            );
        }
    }
}

/// The user keys and values of some tables, sorted.
fn decode_all_entries(ssts: &[Vec<u8>]) -> Vec<(String, String)> {
    let mut out = Vec::new();
    for bytes in ssts {
        out.extend(read_table(bytes, |k, v| {
            let ik = split(k).ok().expect("valid internal key");
            Some((
                String::from_utf8_lossy(ik.user_key).to_string(),
                String::from_utf8_lossy(v).to_string(),
            ))
        }));
    }
    out.sort();
    out
}

/// Walks a table with the block decoders and hands out what `take` makes of
/// each entry.
fn read_table<T>(bytes: &[u8], mut take: impl FnMut(&[u8], &[u8]) -> Option<T>) -> Vec<T> {
    let footer = footer::decode_footer(
        &bytes[bytes.len() - footer::FOOTER_TAIL_LEN..],
        bytes.len() as u64,
    )
    .expect("footer should decode");

    let read_block = |handle: BlockHandle| -> ParsedBlock {
        let start = handle.offset as usize;
        let raw = block::decode_block_contents(
            bytes[start..start + block::block_read_len(handle)].to_vec(),
            handle,
            footer.checksum_type,
            footer.base_context_checksum,
        )
        .expect("block should decode");
        block::parse_block(raw).ok().expect("block should parse")
    };

    let mut scratch = Vec::new();
    let mut index_handle = None;
    block::for_each_entry(
        &read_block(footer.metaindex_handle),
        &mut scratch,
        &mut |k: &[u8], v: &[u8]| {
            if k == b"rocksdb.index" {
                let mut pos = 0;
                let offset = get_varint64(v, &mut pos).unwrap();
                let size = get_varint64(v, &mut pos).unwrap();
                index_handle = Some(BlockHandle { offset, size });
            }
        },
    )
    .expect("metaindex iteration should succeed");
    let index = read_block(index_handle.expect("index handle must be present"));

    let mut data_handles = Vec::new();
    block::for_each_index_entry(&index, &mut scratch, &mut |_k: &[u8], h: BlockHandle| {
        data_handles.push(h)
    })
    .expect("index iteration should succeed");

    let mut out = Vec::new();
    for handle in data_handles {
        block::for_each_entry(
            &read_block(handle),
            &mut scratch,
            &mut |k: &[u8], v: &[u8]| {
                if let Some(item) = take(k, v) {
                    out.push(item);
                }
            },
        )
        .expect("data block iteration should succeed");
    }
    out
}
