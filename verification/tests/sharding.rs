use compactor::compaction::{
    can_compact, can_shard, compact_sharded, load_arena_source, pick_shard_boundaries,
    plan_shards, CompactionOptions,
};
use compactor::format::sst_builder::SstBuilderOptions;
use compactor::fuzzer::make_internal_key;
use compactor::merge::{ArenaSource, ArenaSourceBuilder, MergeSource};

fn source(keys: &[(&str, u64)]) -> ArenaSource {
    let mut builder = ArenaSourceBuilder::with_capacity(keys.len(), 64);
    for (user_key, seq) in keys {
        builder.push(&make_internal_key(user_key, *seq, 1), user_key.as_bytes());
    }
    builder.build()
}

fn plain(entries: &[(&[u8], &[u8])]) -> ArenaSource {
    let mut builder = ArenaSourceBuilder::default();
    for (key, value) in entries {
        assert!(builder.has_room(key, value));
        builder.push(key, value);
    }
    builder.build()
}

fn drain(mut source: ArenaSource) -> Vec<String> {
    let mut out = Vec::new();
    while source.len() > 0 {
        if let Some((_, value)) = source.peek() {
            out.push(String::from_utf8(value.to_vec()).unwrap());
        }
        source.advance();
    }
    out
}

fn options() -> CompactionOptions {
    CompactionOptions {
        sst_builder: SstBuilderOptions::default(),
    }
}

#[test]
fn boundaries_cut_the_largest_source_evenly() {
    let small = source(&[("x", 1)]);
    let large = source(&[("a", 1), ("b", 1), ("c", 1), ("d", 1), ("e", 1), ("f", 1)]);
    let sources = vec![small, large];
    assert_eq!(
        pick_shard_boundaries(&sources, 3),
        vec![make_internal_key("c", 1, 1), make_internal_key("e", 1, 1)]
    );
    assert_eq!(
        pick_shard_boundaries(&sources, 2),
        vec![make_internal_key("d", 1, 1)]
    );
    assert_eq!(pick_shard_boundaries(&sources, 1), Vec::<Vec<u8>>::new());
    assert_eq!(pick_shard_boundaries(&sources, 0), Vec::<Vec<u8>>::new());
    let more = pick_shard_boundaries(&vec![source(&[("a", 1), ("b", 1)])], 4);
    let names: Vec<&[u8]> = more.iter().map(|k| &k[..1]).collect();
    assert_eq!(names, [b"a", b"b", b"b"]);
}

#[test]
fn of_equally_large_sources_the_last_gives_the_boundaries() {
    let sources = vec![source(&[("a", 1), ("b", 1)]), source(&[("c", 1), ("d", 1)])];
    assert_eq!(
        pick_shard_boundaries(&sources, 2),
        vec![make_internal_key("d", 1, 1)]
    );
}

#[test]
fn sources_without_entries_have_no_boundaries() {
    assert_eq!(
        pick_shard_boundaries(&vec![source(&[])], 5),
        Vec::<Vec<u8>>::new()
    );
}

#[test]
fn versions_of_a_key_stay_together() {
    let a = source(&[("a", 9), ("m", 9), ("m", 5), ("z", 1)]);
    let b = source(&[("b", 3), ("m", 7), ("n", 2)]);
    // A boundary in the middle of the versions of a key cuts before them all.
    let shards = plan_shards(&vec![a, b], &vec![make_internal_key("m", 5, 1)]);
    let parts: Vec<Vec<Vec<String>>> = shards
        .into_iter()
        .map(|shard| shard.into_iter().map(drain).collect())
        .collect();
    assert_eq!(
        parts,
        vec![
            vec![vec!["a".to_string()], vec!["b".to_string()]],
            vec![
                vec!["m".to_string(), "m".to_string(), "z".to_string()],
                vec!["m".to_string(), "n".to_string()],
            ],
        ]
    );
}

#[test]
fn lower_bound_ignores_sequence_numbers() {
    let a = source(&[("a", 9), ("m", 9), ("m", 5), ("z", 1)]);
    for seq in [1, 7, 100] {
        assert_eq!(a.lower_bound(&make_internal_key("m", seq, 1)), 1);
        assert_eq!(a.lower_bound(&make_internal_key("a", seq, 1)), 0);
        assert_eq!(a.lower_bound(&make_internal_key("n", seq, 1)), 3);
        assert_eq!(a.lower_bound(&make_internal_key("zz", seq, 1)), 4);
    }
    assert_eq!(a.key_at(2), make_internal_key("m", 5, 1));
}

#[test]
fn windows_share_their_source() {
    let a = source(&[("a", 1), ("b", 1), ("c", 1)]);
    let window = a.shard(1, 2);
    assert_eq!(window.len(), 1);
    assert_eq!(window.total_len(), 3);
    assert_eq!(drain(window), ["b"]);
    assert_eq!(drain(a.shard(3, 3)), Vec::<String>::new());
    assert_eq!(drain(a), ["a", "b", "c"]);
}

#[test]
fn every_shard_has_a_table() {
    let sources = vec![source(&[("a", 1), ("b", 1), ("c", 1), ("d", 1)])];
    assert!(can_shard(&sources, 4));
    let files = compact_sharded(sources, 4, options()).unwrap();
    let got: Vec<Vec<String>> = files
        .iter()
        .map(|file| drain(load_arena_source(file).ok().unwrap()))
        .collect();
    assert_eq!(got, [["a"], ["b"], ["c"], ["d"]]);
}

#[test]
fn without_sources_there_is_one_empty_table() {
    let files = compact_sharded(vec![], 4, options()).unwrap();
    assert_eq!(files.len(), 1);
    assert_eq!(load_arena_source(&files[0]).ok().unwrap().len(), 0);
    let files = compact_sharded(vec![source(&[])], 4, options()).unwrap();
    assert_eq!(files.len(), 1);
}

#[test]
fn keys_that_cannot_be_compared_rule_a_merge_out() {
    let short: &[(&[u8], &[u8])] = &[(b"short", b"v")];
    // There is nothing to compare with.
    assert!(can_compact(&vec![plain(short)]));
    assert!(can_compact(&vec![plain(short), source(&[])]));
    assert!(!can_compact(&vec![plain(short), source(&[("a", 1)])]));
    assert!(can_compact(&vec![source(&[("a", 1)]), source(&[("a", 2)])]));
    assert!(can_compact(&vec![]));
}

#[test]
fn shards_need_sorted_sources() {
    assert!(can_shard(&vec![source(&[("a", 1), ("b", 1)])], 2));
    assert!(!can_shard(&vec![source(&[("b", 1), ("a", 1)])], 2));
    assert!(can_shard(&vec![source(&[("b", 1), ("a", 1)])], 1));
    assert!(!can_shard(&vec![plain(&[(b"short", b"v")])], 2));
    assert!(!can_shard(&vec![source(&[("a", 1), ("b", 1)])], usize::MAX));
    let most = usize::MAX / 2 + 1;
    assert!(can_shard(&vec![source(&[("a", 1), ("b", 1)])], most));
    assert!(!can_shard(&vec![source(&[("a", 1), ("b", 1)])], most + 1));
    assert!(can_shard(&vec![], 9));
}
