use compactor::compaction::{
    BottommostStrategy, CompactionStrategy, KeepDecision, PassthroughStrategy,
    SnapshotAwareStrategy,
};
use compactor::format::internal_key;

fn key(user_key: &str, seq: u64, ty: u8) -> Vec<u8> {
    let mut k = user_key.as_bytes().to_vec();
    let packed = (seq << 8) | ty as u64;
    k.extend_from_slice(&packed.to_le_bytes());
    k
}

const TYPE_VALUE: u8 = 1;
const TYPE_DELETION: u8 = 0;
const TYPE_SINGLE_DELETION: u8 = 7;

#[test]
fn bottommost_keeps_only_newest_and_drops_tombstone_winner() {
    let mut strat = BottommostStrategy;
    let k1 = key("a", 5, TYPE_VALUE);
    let k2 = key("a", 3, TYPE_VALUE);
    let ik1 = internal_key::split(&k1).ok().unwrap();
    let ik2 = internal_key::split(&k2).ok().unwrap();

    assert_eq!(strat.decide(&ik1, true), KeepDecision::Keep);
    assert_eq!(strat.decide(&ik2, false), KeepDecision::Drop);

    let mut strat2 = BottommostStrategy;
    let kd = key("b", 5, TYPE_DELETION);
    let ikd = internal_key::split(&kd).ok().unwrap();
    assert_eq!(strat2.decide(&ikd, true), KeepDecision::Drop);
}

#[test]
fn passthrough_keeps_everything() {
    let mut strat = PassthroughStrategy;
    let kd = key("a", 5, TYPE_DELETION);
    let ikd = internal_key::split(&kd).ok().unwrap();
    assert_eq!(strat.decide(&ikd, true), KeepDecision::Keep);
    assert_eq!(strat.decide(&ikd, false), KeepDecision::Keep);
}

#[test]
fn snapshot_aware_keeps_newest_and_the_version_visible_to_snapshot() {
    // Versions arrive newest first. The snapshot at 5 sees version 4.
    let mut strat = SnapshotAwareStrategy::new(5);
    let versions = [
        (10u64, TYPE_VALUE),
        (7, TYPE_VALUE),
        (4, TYPE_VALUE),
        (2, TYPE_VALUE),
    ];
    let mut decisions = Vec::new();
    for (i, (seq, ty)) in versions.iter().enumerate() {
        let k = key("a", *seq, *ty);
        let ik = internal_key::split(&k).ok().unwrap();
        decisions.push(strat.decide(&ik, i == 0));
    }
    assert_eq!(
        decisions,
        vec![
            KeepDecision::Keep,
            KeepDecision::Drop,
            KeepDecision::Keep,
            KeepDecision::Drop,
        ]
    );
}

#[test]
fn snapshot_aware_keeps_tombstone_visible_to_snapshot() {
    // The snapshot at 5 sees the deletion at 4, so it has to stay.
    let mut strat = SnapshotAwareStrategy::new(5);
    let k_new = key("a", 10, TYPE_VALUE);
    let k_del = key("a", 4, TYPE_DELETION);
    let k_old = key("a", 2, TYPE_VALUE);

    let ik_new = internal_key::split(&k_new).ok().unwrap();
    let ik_del = internal_key::split(&k_del).ok().unwrap();
    let ik_old = internal_key::split(&k_old).ok().unwrap();

    assert_eq!(strat.decide(&ik_new, true), KeepDecision::Keep);
    assert_eq!(strat.decide(&ik_del, false), KeepDecision::Keep);
    assert_eq!(strat.decide(&ik_old, false), KeepDecision::Drop);
}

#[test]
fn snapshot_aware_newest_version_below_snapshot_only_keeps_once() {
    let mut strat = SnapshotAwareStrategy::new(100);
    let k1 = key("a", 5, TYPE_VALUE);
    let k2 = key("a", 3, TYPE_VALUE);
    let ik1 = internal_key::split(&k1).ok().unwrap();
    let ik2 = internal_key::split(&k2).ok().unwrap();
    assert_eq!(strat.decide(&ik1, true), KeepDecision::Keep);
    assert_eq!(strat.decide(&ik2, false), KeepDecision::Drop);
}

#[test]
fn single_deletions_are_tombstones() {
    let k = key("a", 5, TYPE_SINGLE_DELETION);
    let ik = internal_key::split(&k).ok().unwrap();
    assert_eq!(
        BottommostStrategy::default().decide(&ik, true),
        KeepDecision::Drop
    );
    assert_eq!(
        PassthroughStrategy::default().decide(&ik, true),
        KeepDecision::Keep
    );
}

#[test]
fn snapshot_aware_starts_over_at_each_user_key() {
    let mut strat = SnapshotAwareStrategy::new(5);
    for name in ["a", "b"] {
        let newest = key(name, 9, TYPE_VALUE);
        let seen = key(name, 5, TYPE_VALUE);
        let hidden = key(name, 4, TYPE_VALUE);
        let newest = internal_key::split(&newest).ok().unwrap();
        let seen = internal_key::split(&seen).ok().unwrap();
        let hidden = internal_key::split(&hidden).ok().unwrap();
        assert_eq!(strat.decide(&newest, true), KeepDecision::Keep);
        assert_eq!(strat.decide(&seen, false), KeepDecision::Keep);
        assert_eq!(strat.decide(&hidden, false), KeepDecision::Drop);
    }
}
