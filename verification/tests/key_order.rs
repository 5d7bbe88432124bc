use compactor::merge::cmp::{
    compare_internal_keys, compare_user_keys, BytewiseComparator, InternalKeyComparator,
    KeyComparator,
};
use std::cmp::Ordering;

fn make_key(user_key: &[u8], seq: u64, ty: u8) -> Vec<u8> {
    let mut k = user_key.to_vec();
    let packed = (seq << 8) | ty as u64;
    k.extend_from_slice(&packed.to_le_bytes());
    k
}

#[test]
fn orders_by_user_key_first() {
    let a = make_key(b"aaa", 5, 1);
    let b = make_key(b"bbb", 1, 1);
    assert_eq!(compare_internal_keys(&a, &b), Ordering::Less);
}

#[test]
fn same_user_key_higher_seq_first() {
    let newer = make_key(b"key", 10, 1);
    let older = make_key(b"key", 5, 1);
    assert_eq!(compare_internal_keys(&newer, &older), Ordering::Less);
    assert_eq!(compare_internal_keys(&older, &newer), Ordering::Greater);
}

#[test]
fn same_user_key_same_seq_higher_type_first() {
    let a = make_key(b"key", 5, 7);
    let b = make_key(b"key", 5, 1);
    assert_eq!(compare_internal_keys(&a, &b), Ordering::Less);
}

#[test]
fn bytewise_comparator_matches_slice_cmp() {
    let a = b"abc";
    let b = b"abd";
    assert_eq!(BytewiseComparator::compare(a, b), a.cmp(b));
}

#[test]
fn bytewise_sort_prefix_agrees_with_compare_on_differing_prefixes() {
    let a = b"aaaaaaaaX";
    let b = b"bbbbbbbbX";
    let pa = BytewiseComparator::sort_prefix(a);
    let pb = BytewiseComparator::sort_prefix(b);
    assert_ne!(pa, pb);
    assert_eq!(pa.cmp(&pb), BytewiseComparator::compare(a, b));
}

#[test]
fn bytewise_sort_prefix_ties_on_shared_prefix_need_full_compare() {
    // Both keys have the same leading eight bytes.
    let a = b"aaaaaaaaX";
    let b = b"aaaaaaaaY";
    assert_eq!(
        BytewiseComparator::sort_prefix(a),
        BytewiseComparator::sort_prefix(b)
    );
    assert_eq!(BytewiseComparator::compare(a, b), Ordering::Less);
}

#[test]
fn internal_key_comparator_has_no_fast_path() {
    assert!(!InternalKeyComparator::HAS_SORT_PREFIX);
}

#[test]
fn sort_prefix_reads_the_first_byte_as_most_significant() {
    assert!(!BytewiseComparator::HAS_SORT_PREFIX);
    assert_eq!(BytewiseComparator::sort_prefix(b""), 0);
    assert_eq!(BytewiseComparator::sort_prefix(b"a"), 0x6100_0000_0000_0000);
    assert_eq!(
        BytewiseComparator::sort_prefix(b"abcdefghij"),
        0x6162_6364_6566_6768
    );
}

#[test]
fn sequence_numbers_are_not_compared_bytewise() {
    // 256 is stored as 00 01, 1 as 01 00.
    let newer = make_key(b"k", 256, 1);
    let older = make_key(b"k", 1, 1);
    assert_eq!(compare_internal_keys(&newer, &older), Ordering::Less);
    assert_eq!(newer.cmp(&older), Ordering::Less);
    let newest = make_key(b"k", 0x0101, 1);
    assert_eq!(compare_internal_keys(&newest, &older), Ordering::Less);
    assert_eq!(newest.cmp(&older), Ordering::Greater);
}

#[test]
fn user_keys_are_compared_without_their_suffix() {
    let a = make_key(b"k", 1, 1);
    let b = make_key(b"k", 9, 0);
    assert_eq!(compare_user_keys(&a, &b), Ordering::Equal);
    assert_eq!(compare_internal_keys(&a, &a), Ordering::Equal);
    let c = make_key(b"k0", 1, 1);
    assert_eq!(compare_user_keys(&a, &c), Ordering::Less);
    assert_eq!(compare_user_keys(&c, &a), Ordering::Greater);
}
