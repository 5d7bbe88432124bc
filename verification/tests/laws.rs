use compactor::compaction::{
    compact, compact_with_strategy, load_arena_source, BottommostStrategy, CompactionOptions,
    PassthroughStrategy, SnapshotAwareStrategy,
};
use compactor::format::internal_key::{split, ValueType};
use compactor::format::sst_builder::SstBuilderOptions;
use compactor::fuzzer::{decode_sst_entries, make_internal_key, run_compactor};
use compactor::generate::{sources_from_draws, KeyDraw};
use compactor::merge::cmp::compare_internal_keys;
use compactor::merge::{
    ArenaSource, ArenaSourceBuilder, BytewiseComparator, HeapMerger, KWayMerge, LoserTreeMerger,
    MergeSource, VecSource,
};
use compactor::oracle::{decode_suffix, naive_compact};
use std::cmp::Ordering;

type Entries = Vec<(Vec<u8>, Vec<u8>)>;

fn entry(user_key: &str, seq: u64, ty: u8) -> (Vec<u8>, Vec<u8>) {
    (
        make_internal_key(user_key, seq, ty),
        format!("{}@{}", user_key, seq).into_bytes(),
    )
}

/// Three sources with overlapping keys and tombstones.
fn sources() -> Vec<Entries> {
    vec![
        vec![
            entry("a", 9, 1),
            entry("a", 2, 1),
            entry("c", 4, 0),
            entry("d", 8, 7),
        ],
        vec![entry("b", 3, 1), entry("c", 6, 1), entry("d", 5, 1)],
        vec![
            entry("a", 5, 0),
            entry("b", 7, 0),
            entry("c", 1, 1),
            entry("e", 10, 1),
        ],
    ]
}

fn arenas(lists: &[Entries]) -> Vec<ArenaSource> {
    lists
        .iter()
        .map(|entries| {
            let mut builder = ArenaSourceBuilder::new();
            for (k, v) in entries {
                builder.push(k, v);
            }
            builder.build()
        })
        .collect()
}

fn merged<S: MergeSource, M: KWayMerge<S>>(sources: Vec<S>) -> Entries {
    let mut out = Vec::new();
    M::new(sources).run(&mut |k: &[u8], v: &[u8]| out.push((k.to_vec(), v.to_vec())));
    out
}

fn options() -> CompactionOptions {
    CompactionOptions {
        sst_builder: SstBuilderOptions::default(),
    }
}

fn contents(file: &[u8]) -> Entries {
    let mut source = load_arena_source(file).ok().unwrap();
    let mut out = Vec::new();
    loop {
        match source.peek() {
            Some((k, v)) => out.push((k.to_vec(), v.to_vec())),
            None => return out,
        }
        source.advance();
    }
}

/// What a reader at a sequence number finds under a key.
fn look_up(entries: &Entries, user_key: &str, seq: u64) -> Option<Vec<u8>> {
    for (key, value) in entries {
        let ik = split(key).ok().unwrap();
        if ik.user_key == user_key.as_bytes() && ik.sequence <= seq {
            return match ik.value_type {
                ValueType::Deletion | ValueType::SingleDeletion => None,
                _ => Some(value.clone()),
            };
        }
    }
    None
}

#[test]
fn a_merge_keeps_every_entry_in_order() {
    let lists = sources();
    let out = merged::<_, LoserTreeMerger<ArenaSource>>(arenas(&lists));
    let mut all: Entries = lists.iter().flatten().cloned().collect();
    all.sort_by(|a, b| compare_internal_keys(&a.0, &b.0));
    assert_eq!(out, all);
    for pair in out.windows(2) {
        assert_ne!(
            compare_internal_keys(&pair[1].0, &pair[0].0),
            Ordering::Less
        );
    }
}

#[test]
fn both_mergers_give_the_same() {
    for count in 0..=3 {
        let lists: Vec<Entries> = sources().into_iter().take(count).collect();
        let vecs: Vec<VecSource> = lists.iter().cloned().map(VecSource::new).collect();
        assert_eq!(
            merged::<_, HeapMerger<VecSource>>(vecs.clone()),
            merged::<_, LoserTreeMerger<VecSource>>(vecs)
        );
    }
}

#[test]
fn equal_keys_all_come_out() {
    let one = vec![(b"k".to_vec(), b"1".to_vec())];
    let two = vec![(b"k".to_vec(), b"2".to_vec())];
    let sources = || {
        vec![
            VecSource::new(one.clone()),
            VecSource::new(two.clone()),
            VecSource::new(vec![]),
        ]
    };
    for mut out in [
        merged::<_, HeapMerger<VecSource, BytewiseComparator>>(sources()),
        merged::<_, LoserTreeMerger<VecSource, BytewiseComparator>>(sources()),
    ] {
        out.sort();
        assert_eq!(out, [one.clone(), two.clone()].concat());
    }
}

#[test]
fn passthrough_is_the_merge() {
    let lists = sources();
    let file = compact_with_strategy(arenas(&lists), &options(), &mut PassthroughStrategy).unwrap();
    assert_eq!(
        contents(&file),
        merged::<_, LoserTreeMerger<ArenaSource>>(arenas(&lists))
    );
}

#[test]
fn readers_of_the_newest_state_see_no_difference() {
    let lists = sources();
    let all = merged::<_, LoserTreeMerger<ArenaSource>>(arenas(&lists));
    let file = compact(arenas(&lists), &options()).unwrap();
    let kept = contents(&file);
    for user_key in ["a", "b", "c", "d", "e", "f"] {
        assert_eq!(
            look_up(&kept, user_key, u64::MAX),
            look_up(&all, user_key, u64::MAX)
        );
    }
    let mut strategy = BottommostStrategy;
    assert_eq!(
        compact_with_strategy(arenas(&lists), &options(), &mut strategy),
        Ok(file)
    );
    assert_eq!(
        kept,
        vec![entry("a", 9, 1), entry("c", 6, 1), entry("e", 10, 1)]
    );
}

#[test]
fn compacting_again_changes_nothing() {
    let file = compact(arenas(&sources()), &options()).unwrap();
    let again = compact(vec![load_arena_source(&file).ok().unwrap()], &options()).unwrap();
    assert_eq!(again, file);
}

#[test]
fn readers_of_a_snapshot_see_no_difference() {
    let lists = sources();
    let all = merged::<_, LoserTreeMerger<ArenaSource>>(arenas(&lists));
    for snapshot in 0..12 {
        let mut strategy = SnapshotAwareStrategy::new(snapshot);
        let file = compact_with_strategy(arenas(&lists), &options(), &mut strategy).unwrap();
        let kept = contents(&file);
        for user_key in ["a", "b", "c", "d", "e", "f"] {
            assert_eq!(
                look_up(&kept, user_key, snapshot),
                look_up(&all, user_key, snapshot)
            );
            assert_eq!(
                look_up(&kept, user_key, u64::MAX),
                look_up(&all, user_key, u64::MAX)
            );
        }
    }
}

#[test]
fn both_ways_to_compact_agree() {
    let lists = sources();
    let want = vec![
        (b"a".to_vec(), b"a@9".to_vec()),
        (b"c".to_vec(), b"c@6".to_vec()),
        (b"e".to_vec(), b"e@10".to_vec()),
    ];
    assert_eq!(run_compactor(&lists), want);
    assert_eq!(naive_compact(&lists), want);
    let file = compact(arenas(&lists), &options()).unwrap();
    assert_eq!(decode_sst_entries(&file), want);
}

#[test]
fn the_first_of_equal_versions_wins_the_plain_way() {
    let first = vec![(make_internal_key("k", 5, 1), b"first".to_vec())];
    let second = vec![(make_internal_key("k", 5, 1), b"second".to_vec())];
    assert_eq!(
        naive_compact(&[first, second]),
        vec![(b"k".to_vec(), b"first".to_vec())]
    );
}

#[test]
fn suffixes_are_decoded() {
    let key = make_internal_key("user", 77, 7);
    let (user_key, seq, ty) = decode_suffix(&key);
    assert_eq!(user_key, b"user");
    assert_eq!(seq, 77);
    assert!(ty == compactor::oracle::ValueType::SingleDeletion);
    let key = make_internal_key("", 0, 2);
    assert!(decode_suffix(&key).2 == compactor::oracle::ValueType::Other(2));
}

#[test]
fn draws_become_sorted_sources() {
    let draws = [
        KeyDraw {
            newest_is_tombstone: true,
            sources: vec![1, 0, 0],
        },
        KeyDraw {
            newest_is_tombstone: false,
            sources: vec![0],
        },
    ];
    let got = sources_from_draws(2, &draws);
    assert_eq!(
        got,
        vec![
            vec![
                (make_internal_key("key000000", 2, 1), b"value_0_2".to_vec()),
                (make_internal_key("key000000", 1, 1), b"value_0_1".to_vec()),
                (make_internal_key("key000001", 1, 1), b"value_1_1".to_vec()),
            ],
            vec![(make_internal_key("key000000", 3, 0), b"value_0_3".to_vec())],
        ]
    );
    assert_eq!(
        run_compactor(&got),
        vec![(b"key000001".to_vec(), b"value_1_1".to_vec())]
    );
    assert_eq!(sources_from_draws(3, &[]), vec![vec![]; 3]);
}

/// Lists of versions of one key, each with its own value.
fn ties(values: &[&[&str]]) -> Vec<Entries> {
    values
        .iter()
        .map(|list| {
            list.iter()
                .map(|v| (make_internal_key("k", 0, 1), v.as_bytes().to_vec()))
                .collect()
        })
        .collect()
}

fn values_of(entries: Entries) -> Vec<String> {
    entries
        .into_iter()
        .map(|(_, v)| String::from_utf8(v).unwrap())
        .collect()
}

#[test]
fn of_equal_keys_the_side_that_waited_goes_first() {
    let two = ties(&[&["a0", "a1"], &["b0", "b1"]]);
    assert_eq!(
        values_of(merged::<_, LoserTreeMerger<ArenaSource>>(arenas(&two))),
        ["b0", "a0", "b1", "a1"]
    );
    let three = ties(&[&["a0", "a1"], &["b0", "b1"], &["c0", "c1"]]);
    assert_eq!(
        values_of(merged::<_, LoserTreeMerger<ArenaSource>>(arenas(&three))),
        ["c0", "b0", "c1", "a0", "b1", "a1"]
    );
    // A compaction keeps the one that goes first.
    let file = compact(arenas(&three), &options()).ok().unwrap();
    assert_eq!(values_of(contents(&file)), ["c0"]);
}

#[test]
fn compacting_a_compaction_gives_the_same_bytes() {
    for seqno in [None, Some(17)] {
        let mut opts = options();
        opts.sst_builder.external_sst_global_seqno = seqno;
        let file = compact(arenas(&sources()), &opts).ok().unwrap();
        let source = load_arena_source(&file).ok().unwrap();
        assert!(compact(vec![source], &opts) == Ok(file));
    }
}

#[test]
fn short_keys_of_one_list_are_passed_over() {
    let lists = vec![
        vec![],
        vec![
            (b"short".to_vec(), b"x".to_vec()),
            entry("a", 3, 1),
        ],
    ];
    assert_eq!(run_compactor(&lists), [(b"a".to_vec(), b"a@3".to_vec())]);
}
