//! Compaction done the plain way, to compare with: of every user key the
//! version with the highest sequence number is remembered, and at the end
//! those that are deleted are left out. No merge is involved.

use crate::compaction::walk::{
    bottommost, bottommost_pick, first_of_key, is_tombstone_key, lemma_bottommost_picks,
    lemma_bottommost_readers, lemma_first_is_newest, lookup, picked,
};
use crate::entry::{copy_bytes, entries_of, flat, same_bytes, Entry};
use crate::format::internal_key::{
    is_internal_key, lemma_split_key, packed_part, sequence_part, type_byte_part, user_part,
};
use crate::format::laws::{lemma_key_bytes, lemma_type_bytes};
use crate::merge::cmp::{bytes_before, lemma_bytes_order, sorts_before, InternalKeyComparator};
use crate::merge::merged::{
    all_ascending, all_comparable, all_entries, ascending, is_merge, lemma_merge_ascends,
    lemma_merge_keeps_entries,
};
use crate::merge::source::{all_internal, user_keys_ascend};
use vstd::bytes::*;
use vstd::multiset::Multiset;
use vstd::prelude::*;
use vstd::slice::slice_subrange;

verus! {

/// Length of what follows the user key.
pub const SUFFIX_LEN: usize = 8;

/// What a version does, as far as it matters here.
#[derive(Debug, Clone, Copy, PartialEq, Eq, Structural)]
pub enum ValueType {
    Deletion,
    Value,
    SingleDeletion,
    Other(u8),
}

/// The type that a byte stands for.
pub open spec fn plain_type_of(byte: u8) -> ValueType {
    if byte == 0x0 {
        ValueType::Deletion
    } else if byte == 0x1 {
        ValueType::Value
    } else if byte == 0x7 {
        ValueType::SingleDeletion
    } else {
        ValueType::Other(byte)
    }
}

/// Takes an internal key apart.
pub fn decode_suffix(internal_key: &[u8]) -> (r: (&[u8], u64, ValueType))
    requires
        is_internal_key(internal_key@),
    ensures
        r.0@ == user_part(internal_key@),
        r.1 == sequence_part(internal_key@),
        r.2 == plain_type_of(type_byte_part(internal_key@)),
{
    let at: usize = internal_key.len() - SUFFIX_LEN;
    let user_key = slice_subrange(internal_key, 0, at);
    let suffix = slice_subrange(internal_key, at, internal_key.len());
    let packed: u64 = u64_from_le_bytes(suffix);
    proof {
        assert(suffix@ =~= internal_key@.skip(at as int));
        assert(user_key@ =~= user_part(internal_key@));
    }
    let ty = match (packed % 256) as u8 {
        0x0 => ValueType::Deletion,
        0x1 => ValueType::Value,
        0x7 => ValueType::SingleDeletion,
        other => ValueType::Other(other),
    };
    (user_key, packed / 256, ty)
}

/// The first of the versions of `user_key` with the highest sequence number.
pub open spec fn best_of(entries: Seq<Entry>, user_key: Seq<u8>) -> Option<Entry>
    decreases entries.len(),
{
    if entries.len() == 0 {
        None
    } else {
        let before = best_of(entries.drop_last(), user_key);
        let entry = entries.last();
        if user_part(entry.0) != user_key {
            before
        } else {
            match before {
                Some(best) if sequence_part(best.0) >= sequence_part(entry.0) => before,
                _ => Some(entry),
            }
        }
    }
}

/// Whether names ascend and none occurs twice.
pub open spec fn strictly_ascending(entries: Seq<Entry>) -> bool {
    forall|i: int, j: int|
        0 <= i < j < entries.len() ==> bytes_before(
            #[trigger] entries[i].0,
            #[trigger] entries[j].0,
        )
}

/// Whether `out` lists, in ascending order, exactly the user keys whose best
/// version is no tombstone, with the value of that version.
pub open spec fn is_plain_compaction(entries: Seq<Entry>, out: Seq<Entry>) -> bool {
    &&& strictly_ascending(out)
    &&& forall|user_key: Seq<u8>, value: Seq<u8>|
        #[trigger] out.contains((user_key, value)) <==> is_live(entries, user_key, value)
}

/// Whether the best version of `user_key` has `value` and is no tombstone.
pub open spec fn is_live(entries: Seq<Entry>, user_key: Seq<u8>, value: Seq<u8>) -> bool {
    match best_of(entries, user_key) {
        Some(best) => !is_tombstone_key(best.0) && best.1 == value,
        None => false,
    }
}

/// The best version of one user key so far.
struct Best {
    user_key: Vec<u8>,
    seq: u64,
    value: Vec<u8>,
    is_tombstone: bool,
}

impl Best {
    /// Whether this is what there is to know of `entry`.
    spec fn is_of(self, entry: Entry) -> bool {
        &&& self.seq == sequence_part(entry.0)
        &&& self.value@ == entry.1
        &&& self.is_tombstone == is_tombstone_key(entry.0)
    }
}

/// Whether `best` lists the best version of each user key in `entries`.
spec fn lists_best(entries: Seq<Entry>, best: Seq<Best>) -> bool {
    &&& forall|i: int, j: int|
        0 <= i < j < best.len() ==> bytes_before(
            (#[trigger] best[i]).user_key@,
            (#[trigger] best[j]).user_key@,
        )
    &&& forall|i: int|
        0 <= i < best.len() ==> best_of(entries, (#[trigger] best[i]).user_key@) is Some
            && best[i].is_of(best_of(entries, best[i].user_key@)->0)
    &&& forall|k: Seq<u8>| #[trigger]
        best_of(entries, k) is Some ==> exists|i: int|
            0 <= i < best.len() && (#[trigger] best[i]).user_key@ == k
}

/// How many user keys in the list come before `user_key`.
fn find_place(best: &Vec<Best>, user_key: &[u8]) -> (r: usize)
    requires
        forall|i: int, j: int|
            0 <= i < j < best@.len() ==> bytes_before(
                (#[trigger] best@[i]).user_key@,
                (#[trigger] best@[j]).user_key@,
            ),
    ensures
        r <= best@.len(),
        forall|i: int|
            0 <= i < r ==> bytes_before((#[trigger] best@[i]).user_key@, user_key@),
        forall|i: int|
            r <= i < best@.len() ==> !bytes_before((#[trigger] best@[i]).user_key@, user_key@),
{
    let mut low: usize = 0;
    let mut high: usize = best.len();
    while low < high
        invariant
            low <= high <= best@.len(),
            forall|i: int, j: int|
                0 <= i < j < best@.len() ==> bytes_before(
                    (#[trigger] best@[i]).user_key@,
                    (#[trigger] best@[j]).user_key@,
                ),
            forall|i: int|
                0 <= i < low ==> bytes_before((#[trigger] best@[i]).user_key@, user_key@),
            forall|i: int|
                high <= i < best@.len() ==> !bytes_before(
                    (#[trigger] best@[i]).user_key@,
                    user_key@,
                ),
        decreases high - low,
    {
        let mid: usize = low + (high - low) / 2;
        if sorts_before(best[mid].user_key.as_slice(), user_key) {
            assert forall|i: int| 0 <= i < mid + 1 implies bytes_before(
                (#[trigger] best@[i]).user_key@,
                user_key@,
            ) by {
                lemma_bytes_order(best@[i].user_key@, best@[mid as int].user_key@, user_key@);
            }
            low = mid + 1;
        } else {
            assert forall|i: int| mid <= i < best@.len() implies !bytes_before(
                (#[trigger] best@[i]).user_key@,
                user_key@,
            ) by {
                lemma_bytes_order(best@[mid as int].user_key@, best@[i].user_key@, user_key@);
            }
            high = mid;
        }
    }
    low
}

/// One more entry concerns only its own user key.
proof fn lemma_best_of_push(entries: Seq<Entry>, entry: Entry, k: Seq<u8>)
    ensures
        best_of(entries.push(entry), k) == if user_part(entry.0) != k {
            best_of(entries, k)
        } else {
            match best_of(entries, k) {
                Some(best) if sequence_part(best.0) >= sequence_part(entry.0) => Some(best),
                _ => Some(entry),
            }
        },
{
    assert(entries.push(entry).drop_last() =~= entries);
}

/// Takes one more entry into account.
fn consider(best: &mut Vec<Best>, key: &[u8], value: &[u8], entries: Ghost<Seq<Entry>>)
    requires
        is_internal_key(key@),
        lists_best(entries@, old(best)@),
    ensures
        lists_best(entries@.push((key@, value@)), final(best)@),
{
    let (user_key, seq, ty) = decode_suffix(key);
    let is_tombstone = match ty {
        ValueType::Deletion => true,
        ValueType::SingleDeletion => true,
        _ => false,
    };
    let ghost entry = (key@, value@);
    let ghost after = entries@.push(entry);
    let ghost before = best@;
    assert(is_tombstone == is_tombstone_key(key@));
    proof {
        assert forall|k: Seq<u8>| best_of(after, k) == #[trigger] best_of(entries@, k) || k
            == user_key@ by {
            lemma_best_of_push(entries@, entry, k);
        }
        lemma_best_of_push(entries@, entry, user_key@);
    }
    let at: usize = find_place(best, user_key);
    let known = at < best.len() && same_bytes(best[at].user_key.as_slice(), user_key);
    if known {
        if best[at].seq < seq {
            best[at] = Best {
                user_key: copy_bytes(user_key),
                seq,
                value: copy_bytes(value),
                is_tombstone,
            };
        }
        proof {
            lemma_known(entries@, entry, before, best@, at as int);
        }
    } else {
        let item = Best {
            user_key: copy_bytes(user_key),
            seq,
            value: copy_bytes(value),
            is_tombstone,
        };
        best.insert(at, item);
        proof {
            lemma_unknown(entries@, entry, before, best@, at as int, item);
        }
    }
}

/// The list stays right when the entry's user key is in it at `at`.
proof fn lemma_known(
    entries: Seq<Entry>,
    entry: Entry,
    before: Seq<Best>,
    after: Seq<Best>,
    at: int,
)
    requires
        lists_best(entries, before),
        0 <= at < before.len(),
        before[at].user_key@ == user_part(entry.0),
        after.len() == before.len(),
        forall|i: int| 0 <= i < before.len() && i != at ==> #[trigger] after[i] == before[i],
        after[at].user_key@ == user_part(entry.0),
        before[at].seq < sequence_part(entry.0) ==> after[at].is_of(entry),
        before[at].seq >= sequence_part(entry.0) ==> after[at] == before[at],
    ensures
        lists_best(entries.push(entry), after),
{
    let all = entries.push(entry);
    let u = user_part(entry.0);
    assert(best_of(entries, before[at].user_key@) is Some);
    assert forall|i: int, j: int| 0 <= i < j < after.len() implies bytes_before(
        (#[trigger] after[i]).user_key@,
        (#[trigger] after[j]).user_key@,
    ) by {
        assert(after[i].user_key@ == before[i].user_key@);
        assert(after[j].user_key@ == before[j].user_key@);
    }
    assert forall|i: int| 0 <= i < after.len() implies best_of(
        all,
        (#[trigger] after[i]).user_key@,
    ) is Some && after[i].is_of(best_of(all, after[i].user_key@)->0) by {
        lemma_best_of_push(entries, entry, after[i].user_key@);
        if i != at {
            assert(before[i].user_key@ != u) by {
                if i < at {
                    assert(bytes_before(before[i].user_key@, before[at].user_key@));
                } else {
                    assert(bytes_before(before[at].user_key@, before[i].user_key@));
                }
                lemma_bytes_order(u, u, u);
            }
        }
    }
    assert forall|k: Seq<u8>| #[trigger] best_of(all, k) is Some implies exists|i: int|
        0 <= i < after.len() && (#[trigger] after[i]).user_key@ == k by {
        lemma_best_of_push(entries, entry, k);
        if k == u {
            assert(after[at].user_key@ == k);
        } else {
            assert(best_of(entries, k) is Some);
            let i = choose|i: int|
                0 <= i < before.len() && (#[trigger] before[i]).user_key@ == k;
            assert(after[i].user_key@ == k);
        }
    }
}

/// The list stays right when the entry's user key is put into it at `at`.
proof fn lemma_unknown(
    entries: Seq<Entry>,
    entry: Entry,
    before: Seq<Best>,
    after: Seq<Best>,
    at: int,
    item: Best,
)
    requires
        lists_best(entries, before),
        0 <= at <= before.len(),
        forall|i: int|
            0 <= i < at ==> bytes_before((#[trigger] before[i]).user_key@, user_part(entry.0)),
        forall|i: int|
            at <= i < before.len() ==> !bytes_before(
                (#[trigger] before[i]).user_key@,
                user_part(entry.0),
            ),
        at < before.len() ==> before[at].user_key@ != user_part(entry.0),
        after == before.insert(at, item),
        item.user_key@ == user_part(entry.0),
        item.is_of(entry),
    ensures
        lists_best(entries.push(entry), after),
{
    let all = entries.push(entry);
    let u = user_part(entry.0);
    lemma_bytes_order(u, u, u);
    assert forall|i: int| at <= i < before.len() implies bytes_before(
        u,
        (#[trigger] before[i]).user_key@,
    ) by {
        lemma_bytes_order(u, before[at].user_key@, before[i].user_key@);
        lemma_bytes_order(u, before[i].user_key@, u);
        if i > at {
            assert(bytes_before(before[at].user_key@, before[i].user_key@));
        }
    }
    assert forall|i: int| 0 <= i < before.len() implies (#[trigger] before[i]).user_key@ != u by {}
    assert(best_of(entries, u) is None) by {
        if best_of(entries, u) is Some {
            let i = choose|i: int|
                0 <= i < before.len() && (#[trigger] before[i]).user_key@ == u;
            assert(before[i].user_key@ != u);
        }
    }
    assert forall|i: int, j: int| 0 <= i < j < after.len() implies bytes_before(
        (#[trigger] after[i]).user_key@,
        (#[trigger] after[j]).user_key@,
    ) by {
        let a = if i < at { i } else { i - 1 };
        let b = if j < at { j } else { j - 1 };
        if i == at {
            assert(after[j] == before[b]);
        } else if j == at {
            assert(after[i] == before[a]);
        } else {
            assert(after[i] == before[a] && after[j] == before[b]);
        }
    }
    assert forall|i: int| 0 <= i < after.len() implies best_of(
        all,
        (#[trigger] after[i]).user_key@,
    ) is Some && after[i].is_of(best_of(all, after[i].user_key@)->0) by {
        lemma_best_of_push(entries, entry, after[i].user_key@);
        if i != at {
            let a = if i < at { i } else { i - 1 };
            assert(after[i] == before[a]);
            assert(before[a].user_key@ != u);
        }
    }
    assert forall|k: Seq<u8>| #[trigger] best_of(all, k) is Some implies exists|i: int|
        0 <= i < after.len() && (#[trigger] after[i]).user_key@ == k by {
        lemma_best_of_push(entries, entry, k);
        if k == u {
            assert(after[at].user_key@ == k);
        } else {
            assert(best_of(entries, k) is Some);
            let i = choose|i: int|
                0 <= i < before.len() && (#[trigger] before[i]).user_key@ == k;
            assert(after[if i < at { i } else { i + 1 }].user_key@ == k);
        }
    }
}

/// The entries of all sources, one source behind the other.
pub open spec fn all_in_order(sources: Seq<Vec<(Vec<u8>, Vec<u8>)>>) -> Seq<Entry> {
    flat(Seq::new(sources.len(), |i: int| entries_of(sources[i]@)))
}

/// Compacts without merging: of every user key the version with the highest
/// sequence number is kept, unless it is a tombstone. User keys come out in
/// ascending order.
#[verifier::rlimit(50)]
pub fn naive_compact(sources: &[Vec<(Vec<u8>, Vec<u8>)>]) -> (r: Vec<(Vec<u8>, Vec<u8>)>)
    requires
        forall|i: int, k: int|
            0 <= i < sources@.len() && 0 <= k < sources@[i]@.len() ==> is_internal_key(
                #[trigger] sources@[i]@[k].0@,
            ),
    ensures
        is_plain_compaction(all_in_order(sources@), entries_of(r@)),
{
    let mut best: Vec<Best> = Vec::new();
    let ghost mut seen = Seq::<Entry>::empty();
    let ghost groups = Seq::new(sources@.len(), |i: int| entries_of(sources@[i]@));
    let mut s: usize = 0;
    assert(groups.take(0) =~= Seq::<Seq<Entry>>::empty());
    while s < sources.len()
        invariant
            s <= sources@.len(),
            groups == Seq::new(sources@.len(), |i: int| entries_of(sources@[i]@)),
            seen == flat(groups.take(s as int)),
            lists_best(seen, best@),
            forall|i: int, k: int|
                0 <= i < sources@.len() && 0 <= k < sources@[i]@.len() ==> is_internal_key(
                    #[trigger] sources@[i]@[k].0@,
                ),
        decreases sources@.len() - s,
    {
        let source = &sources[s];
        let ghost start = seen;
        let mut k: usize = 0;
        assert(start + entries_of(source@).take(0) =~= start);
        while k < source.len()
            invariant
                k <= source@.len(),
                seen == start + entries_of(source@).take(k as int),
                lists_best(seen, best@),
                forall|k: int|
                    0 <= k < source@.len() ==> is_internal_key(#[trigger] source@[k].0@),
            decreases source@.len() - k,
        {
            let entry = &source[k];
            consider(&mut best, entry.0.as_slice(), entry.1.as_slice(), Ghost(seen));
            proof {
                let all = entries_of(source@);
                assert(all.take(k + 1) =~= all.take(k as int).push(all[k as int]));
                assert(seen.push(all[k as int]) =~= start + all.take(k + 1));
                seen = seen.push(all[k as int]);
            }
            k = k + 1;
        }
        proof {
            assert(entries_of(source@).take(k as int) =~= entries_of(source@));
            assert(groups.take(s + 1).drop_last() =~= groups.take(s as int));
        }
        s = s + 1;
    }
    assert(groups.take(s as int) =~= groups);
    live_entries(best, Ghost(seen))
}

/// Whether `entry` is the user key and the value of one of the first `n` that
/// is no tombstone.
spec fn is_listed(best: Seq<Best>, n: int, entry: Entry) -> bool {
    exists|b: int|
        0 <= b < n && !(#[trigger] best[b]).is_tombstone && entry == (
            best[b].user_key@,
            best[b].value@,
        )
}

/// The user keys and values of what is no tombstone.
fn live_entries(best: Vec<Best>, entries: Ghost<Seq<Entry>>) -> (r: Vec<(Vec<u8>, Vec<u8>)>)
    requires
        lists_best(entries@, best@),
    ensures
        is_plain_compaction(entries@, entries_of(r@)),
{
    let mut out: Vec<(Vec<u8>, Vec<u8>)> = Vec::new();
    let mut i: usize = 0;
    while i < best.len()
        invariant
            i <= best@.len(),
            lists_best(entries@, best@),
            strictly_ascending(entries_of(out@)),
            forall|o: int|
                0 <= o < out@.len() ==> is_listed(best@, i as int, #[trigger] entries_of(out@)[o]),
            forall|b: int|
                0 <= b < i && !(#[trigger] best@[b]).is_tombstone ==> entries_of(out@).contains(
                    (best@[b].user_key@, best@[b].value@),
                ),
        decreases best@.len() - i,
    {
        let ghost before = entries_of(out@);
        if !best[i].is_tombstone {
            let ghost item = (best@[i as int].user_key@, best@[i as int].value@);
            out.push(
                (copy_bytes(best[i].user_key.as_slice()), copy_bytes(best[i].value.as_slice())),
            );
            proof {
                let after = entries_of(out@);
                assert(after =~= before.push(item));
                assert forall|a: int, b: int| 0 <= a < b < after.len() implies bytes_before(
                    #[trigger] after[a].0,
                    #[trigger] after[b].0,
                ) by {
                    if b == before.len() {
                        assert(is_listed(best@, i as int, before[a]));
                        let p = choose|p: int|
                            0 <= p < i && !(#[trigger] best@[p]).is_tombstone && before[a] == (
                                best@[p].user_key@,
                                best@[p].value@,
                            );
                        assert(bytes_before(best@[p].user_key@, best@[i as int].user_key@));
                    } else {
                        assert(bytes_before(before[a].0, before[b].0));
                    }
                }
                assert forall|o: int| 0 <= o < out@.len() implies is_listed(
                    best@,
                    i + 1,
                    #[trigger] entries_of(out@)[o],
                ) by {
                    if o < before.len() {
                        assert(is_listed(best@, i as int, before[o]));
                        let p = choose|p: int|
                            0 <= p < i && !(#[trigger] best@[p]).is_tombstone && before[o] == (
                                best@[p].user_key@,
                                best@[p].value@,
                            );
                        assert(!best@[p].is_tombstone);
                    } else {
                        assert(!best@[i as int].is_tombstone);
                    }
                }
                assert forall|b: int|
                    0 <= b < i + 1 && !(#[trigger] best@[b]).is_tombstone implies after.contains(
                    (best@[b].user_key@, best@[b].value@),
                ) by {
                    if b < i {
                        let x = (best@[b].user_key@, best@[b].value@);
                        assert(before.contains(x));
                        let p = choose|p: int| 0 <= p < before.len() && before[p] == x;
                        assert(after[p] == x);
                    } else {
                        assert(after[before.len() as int] == item);
                    }
                }
            }
        }
        i = i + 1;
    }
    proof {
        let result = entries_of(out@);
        assert forall|user_key: Seq<u8>, value: Seq<u8>| #[trigger] result.contains(
            (user_key, value),
        ) <==> is_live(entries@, user_key, value) by {
            if result.contains((user_key, value)) {
                let o = choose|o: int| 0 <= o < result.len() && result[o] == (user_key, value);
                assert(is_listed(best@, i as int, result[o]));
                let b = choose|b: int|
                    0 <= b < i && !(#[trigger] best@[b]).is_tombstone && result[o] == (
                        best@[b].user_key@,
                        best@[b].value@,
                    );
                assert(best_of(entries@, best@[b].user_key@) is Some);
            }
            if is_live(entries@, user_key, value) {
                assert(best_of(entries@, user_key) is Some);
                let b = choose|b: int|
                    0 <= b < best@.len() && (#[trigger] best@[b]).user_key@ == user_key;
                assert(best@[b].is_of(best_of(entries@, best@[b].user_key@)->0));
                assert(!best@[b].is_tombstone);
            }
        }
    }
    out
}

/// The best version of a user key is one of its versions, and none has a
/// higher sequence number.
pub proof fn lemma_best_of(entries: Seq<Entry>, k: Seq<u8>)
    ensures
        match best_of(entries, k) {
            Some(best) => {
                &&& entries.contains(best)
                &&& user_part(best.0) == k
                &&& forall|x: Entry| #[trigger]
                    entries.contains(x) && user_part(x.0) == k ==> sequence_part(x.0)
                        <= sequence_part(best.0)
            },
            None => forall|x: Entry| #[trigger] entries.contains(x) ==> user_part(x.0) != k,
        },
    decreases entries.len(),
{
    if entries.len() > 0 {
        let before = entries.drop_last();
        let n = entries.len() - 1;
        lemma_best_of(before, k);
        assert forall|x: Entry| #[trigger] entries.contains(x) implies before.contains(x) || x
            == entries[n] by {
            let p = choose|p: int| 0 <= p < entries.len() && entries[p] == x;
            if p < n {
                assert(before[p] == x);
            }
        }
        assert forall|x: Entry| before.contains(x) implies entries.contains(x) by {
            let p = choose|p: int| 0 <= p < before.len() && before[p] == x;
            assert(entries[p] == x);
        }
        assert(entries.contains(entries[n]));
    }
}

/// What a lookup of the newest version finds is one of the versions, and none
/// has a higher sequence number.
proof fn lemma_lookup_newest(merged: Seq<Entry>, k: Seq<u8>)
    requires
        all_internal(merged),
        ascending::<InternalKeyComparator>(merged),
    ensures
        match lookup(merged, k, u64::MAX) {
            Some(found) => {
                &&& merged.contains(found)
                &&& user_part(found.0) == k
                &&& forall|x: Entry| #[trigger]
                    merged.contains(x) && user_part(x.0) == k ==> sequence_part(x.0)
                        <= sequence_part(found.0)
            },
            None => forall|x: Entry| #[trigger] merged.contains(x) ==> user_part(x.0) != k,
        },
{
    lemma_lookup_first(merged, k);
    lemma_first_is_newest(merged);
    if let Some(found) = lookup(merged, k, u64::MAX) {
        let p = choose|p: int|
            0 <= p < merged.len() && merged[p] == found && #[trigger] first_of_key(merged, p);
        assert forall|x: Entry| #[trigger]
            merged.contains(x) && user_part(x.0) == k implies sequence_part(x.0) <= sequence_part(
            found.0,
        ) by {
            let q = choose|q: int| 0 <= q < merged.len() && merged[q] == x;
            assert(packed_part(merged[q].0) <= packed_part(merged[p].0));
        }
    }
}

proof fn lemma_lookup_first(entries: Seq<Entry>, k: Seq<u8>)
    ensures
        match lookup(entries, k, u64::MAX) {
            Some(found) => user_part(found.0) == k && exists|p: int|
                0 <= p < entries.len() && entries[p] == found && #[trigger] first_of_key(
                    entries,
                    p,
                ),
            None => forall|x: Entry| #[trigger] entries.contains(x) ==> user_part(x.0) != k,
        },
    decreases entries.len(),
{
    if entries.len() > 0 {
        let before = entries.drop_last();
        let n = entries.len() - 1;
        lemma_lookup_first(before, k);
        match lookup(before, k, u64::MAX) {
            Some(found) => {
                let p = choose|p: int|
                    0 <= p < before.len() && before[p] == found && #[trigger] first_of_key(
                        before,
                        p,
                    );
                assert(entries[p] == found);
                assert forall|q: int| 0 <= q < p implies user_part(#[trigger] entries[q].0)
                    != user_part(entries[p].0) by {
                    assert(before[q] == entries[q]);
                }
                assert(first_of_key(entries, p));
            },
            None => {
                assert forall|q: int| 0 <= q < n implies user_part(#[trigger] entries[q].0)
                    != k by {
                    assert(before[q] == entries[q]);
                    assert(before.contains(before[q]));
                }
                if user_part(entries[n].0) == k {
                    assert(first_of_key(entries, n));
                } else {
                    assert forall|x: Entry| #[trigger] entries.contains(x) implies user_part(x.0)
                        != k by {
                        let q = choose|q: int| 0 <= q < entries.len() && entries[q] == x;
                    }
                }
            },
        }
    }
}

/// Entries with their internal keys cut down to user keys.
pub open spec fn user_entries(entries: Seq<Entry>) -> Seq<Entry> {
    Seq::new(entries.len(), |i: int| (user_part(entries[i].0), entries[i].1))
}

/// What the default compaction keeps has each user key once, in ascending
/// order.
pub proof fn lemma_bottommost_ascends(merged: Seq<Entry>)
    requires
        all_internal(merged),
        user_keys_ascend(merged),
    ensures
        strictly_ascending(user_entries(bottommost(merged))),
{
    lemma_bottommost_picks(merged);
    assert(merged =~= merged.take(merged.len() as int));
    lemma_picked_ascends(merged, merged, bottommost_pick(merged));
}

/// Whether `x` is one of the entries that `pick` names.
spec fn is_picked(entries: Seq<Entry>, pick: spec_fn(int) -> bool, n: int, x: Entry) -> bool {
    exists|p: int| 0 <= p < n && #[trigger] pick(p) && entries[p] == x
}

proof fn lemma_picked_ascends(all: Seq<Entry>, front: Seq<Entry>, pick: spec_fn(int) -> bool)
    requires
        user_keys_ascend(all),
        front.len() <= all.len(),
        front == all.take(front.len() as int),
        forall|p: int| 0 <= p < all.len() && #[trigger] pick(p) ==> first_of_key(all, p),
    ensures
        strictly_ascending(user_entries(picked(front, pick))),
        forall|i: int|
            0 <= i < picked(front, pick).len() ==> is_picked(
                all,
                pick,
                front.len() as int,
                #[trigger] picked(front, pick)[i],
            ),
    decreases front.len(),
{
    if front.len() > 0 {
        let before = front.drop_last();
        let n = front.len() - 1;
        assert(before =~= all.take(n));
        lemma_picked_ascends(all, before, pick);
        let kept = picked(before, pick);
        let now = picked(front, pick);
        assert forall|i: int| 0 <= i < now.len() implies is_picked(
            all,
            pick,
            front.len() as int,
            #[trigger] now[i],
        ) by {
            if i < kept.len() {
                assert(is_picked(all, pick, n, kept[i]));
                let p = choose|p: int| 0 <= p < n && #[trigger] pick(p) && all[p] == kept[i];
                assert(pick(p) && all[p] == now[i]);
            } else {
                assert(pick(n) && all[n] == now[i]);
            }
        }
        if pick(n) {
            let names = user_entries(now);
            assert forall|i: int, j: int| 0 <= i < j < names.len() implies bytes_before(
                #[trigger] names[i].0,
                #[trigger] names[j].0,
            ) by {
                if j < kept.len() {
                    assert(user_entries(kept)[i] == names[i]);
                    assert(user_entries(kept)[j] == names[j]);
                } else {
                    assert(is_picked(all, pick, n, kept[i]));
                    let p = choose|p: int| 0 <= p < n && #[trigger] pick(p) && all[p] == kept[i];
                    assert(first_of_key(all, n));
                    assert(user_part(all[p].0) != user_part(all[n].0));
                    assert(!bytes_before(user_part(all[n].0), user_part(all[p].0)));
                    lemma_bytes_order(user_part(all[p].0), user_part(all[n].0), names[j].0);
                }
            }
        }
    }
}

/// In a list without repeated user keys, having an entry is finding it.
proof fn lemma_lookup_in_strict(kept: Seq<Entry>, k: Seq<u8>, v: Seq<u8>)
    requires
        strictly_ascending(user_entries(kept)),
    ensures
        user_entries(kept).contains((k, v)) <==> (lookup(kept, k, u64::MAX) matches Some(found)
            && found.1 == v),
{
    lemma_lookup_first(kept, k);
    let names = user_entries(kept);
    if names.contains((k, v)) {
        let i = choose|i: int| 0 <= i < names.len() && names[i] == (k, v);
        assert(kept.contains(kept[i]));
        let found = lookup(kept, k, u64::MAX)->0;
        let p = choose|p: int|
            0 <= p < kept.len() && kept[p] == found && #[trigger] first_of_key(kept, p);
        assert(names[p].0 == k);
        lemma_bytes_order(k, k, k);
        if i < p {
            assert(bytes_before(names[i].0, names[p].0));
        } else if p < i {
            assert(bytes_before(names[p].0, names[i].0));
        }
    }
    if let Some(found) = lookup(kept, k, u64::MAX) {
        let p = choose|p: int|
            0 <= p < kept.len() && kept[p] == found && #[trigger] first_of_key(kept, p);
        assert(names[p] == (k, found.1));
    }
}

/// Two lists in strictly ascending order that have the same entries are equal.
proof fn lemma_strict_is_unique(a: Seq<Entry>, b: Seq<Entry>)
    requires
        strictly_ascending(a),
        strictly_ascending(b),
        forall|x: Entry| #[trigger] a.contains(x) <==> b.contains(x),
    ensures
        a == b,
    decreases a.len(),
{
    if a.len() == 0 {
        if b.len() > 0 {
            assert(b.contains(b[0]));
            assert(a.contains(b[0]));
        }
        assert(a =~= b);
    } else {
        assert(a.contains(a[0]));
        assert(b.contains(a[0]));
        assert(b.contains(b[0]));
        assert(a.contains(b[0]));
        let p = choose|p: int| 0 <= p < b.len() && b[p] == a[0];
        let q = choose|q: int| 0 <= q < a.len() && a[q] == b[0];
        lemma_bytes_order(a[0].0, b[0].0, a[0].0);
        if p > 0 {
            assert(bytes_before(b[0].0, b[p].0));
            if q > 0 {
                assert(bytes_before(a[0].0, a[q].0));
            }
        }
        let ra = a.drop_first();
        let rb = b.drop_first();
        assert forall|x: Entry| #[trigger] ra.contains(x) <==> rb.contains(x) by {
            lemma_rest_contains(a, x);
            lemma_rest_contains(b, x);
            assert(a.contains(x) <==> b.contains(x));
        }
        assert forall|i: int, j: int| 0 <= i < j < ra.len() implies bytes_before(
            #[trigger] ra[i].0,
            #[trigger] ra[j].0,
        ) by {
            assert(bytes_before(a[i + 1].0, a[j + 1].0));
        }
        assert forall|i: int, j: int| 0 <= i < j < rb.len() implies bytes_before(
            #[trigger] rb[i].0,
            #[trigger] rb[j].0,
        ) by {
            assert(bytes_before(b[i + 1].0, b[j + 1].0));
        }
        lemma_strict_is_unique(ra, rb);
        assert(a =~= seq![a[0]] + ra);
        assert(b =~= seq![b[0]] + rb);
    }
}

proof fn lemma_rest_contains(a: Seq<Entry>, x: Entry)
    requires
        a.len() > 0,
        strictly_ascending(a),
    ensures
        a.drop_first().contains(x) <==> a.contains(x) && x != a[0],
{
    let rest = a.drop_first();
    if rest.contains(x) {
        let i = choose|i: int| 0 <= i < rest.len() && rest[i] == x;
        assert(a[i + 1] == x);
        assert(bytes_before(a[0].0, a[i + 1].0));
        lemma_bytes_order(x.0, x.0, x.0);
    }
    if a.contains(x) && x != a[0] {
        let i = choose|i: int| 0 <= i < a.len() && a[i] == x;
        assert(rest[i - 1] == x);
    }
}

/// The entries of all inputs, one input behind the other, are all entries.
proof fn lemma_flat_entries(inputs: Seq<Seq<Entry>>)
    ensures
        flat(inputs).to_multiset() == all_entries(inputs),
    decreases inputs.len(),
{
    if inputs.len() == 0 {
        broadcast use vstd::seq_lib::group_to_multiset_ensures;

        assert(flat(inputs).to_multiset() =~= all_entries(inputs));
    } else {
        lemma_flat_entries(inputs.drop_last());
        vstd::seq_lib::lemma_multiset_commutative(flat(inputs.drop_last()), inputs.last());
    }
}

/// Whether two versions of one user key with one sequence number are the same.
pub open spec fn versions_agree(entries: Multiset<Entry>) -> bool {
    forall|x: Entry, y: Entry| #[trigger]
        entries.contains(x) && #[trigger] entries.contains(y) && user_part(x.0) == user_part(y.0)
            && sequence_part(x.0) == sequence_part(y.0) ==> x == y
}

/// Whether no version of the same user key has a higher sequence number.
pub open spec fn is_newest(entries: Multiset<Entry>, x: Entry) -> bool {
    forall|z: Entry| #[trigger]
        entries.contains(z) && user_part(z.0) == user_part(x.0) ==> sequence_part(z.0)
            <= sequence_part(x.0)
}

/// Whether two versions do the same to their user key: both delete it, or both
/// give it the same value.
pub open spec fn same_effect(x: Entry, y: Entry) -> bool {
    &&& is_tombstone_key(x.0) == is_tombstone_key(y.0)
    &&& !is_tombstone_key(x.0) ==> x.1 == y.1
}

/// Whether newest versions of one user key do the same, where there are
/// several.
pub open spec fn newest_agree(entries: Multiset<Entry>) -> bool {
    forall|x: Entry, y: Entry| #[trigger]
        entries.contains(x) && #[trigger] entries.contains(y) && user_part(x.0) == user_part(y.0)
            && is_newest(entries, x) && is_newest(entries, y) ==> same_effect(x, y)
}

/// Where no two different versions of a key have the same sequence number,
/// newest versions agree.
pub proof fn lemma_versions_agree(entries: Multiset<Entry>)
    requires
        versions_agree(entries),
    ensures
        newest_agree(entries),
{
}

/// Compaction by merging and compaction the plain way agree, on sorted inputs
/// in which newest versions of one user key do the same.
#[verifier::rlimit(50)]
pub proof fn lemma_compaction_matches_plain(
    inputs: Seq<Seq<Entry>>,
    merged: Seq<Entry>,
    out: Seq<Entry>,
)
    requires
        all_comparable::<InternalKeyComparator>(inputs),
        all_ascending::<InternalKeyComparator>(inputs),
        newest_agree(all_entries(inputs)),
        is_merge::<InternalKeyComparator>(inputs, merged),
        is_plain_compaction(flat(inputs), out),
    ensures
        out == user_entries(bottommost(merged)),
{
    broadcast use vstd::seq_lib::group_to_multiset_ensures;

    let all = flat(inputs);
    let kept = bottommost(merged);
    lemma_merge_ascends::<InternalKeyComparator>(inputs, merged);
    lemma_merge_keeps_entries::<InternalKeyComparator>(inputs, merged);
    lemma_flat_entries(inputs);
    assert(all_internal(merged));
    lemma_first_is_newest(merged);
    lemma_bottommost_ascends(merged);
    assert forall|x: Entry| #[trigger] out.contains(x) <==> user_entries(kept).contains(x) by {
        let (k, v) = x;
        assert(out.contains((k, v)) <==> is_live(all, k, v));
        lemma_lookup_in_strict(kept, k, v);
        lemma_bottommost_readers(merged, k);
        lemma_best_of(all, k);
        lemma_lookup_newest(merged, k);
        lemma_kept_no_tombstones(merged, k);
        assert forall|y: Entry| all.contains(y) <==> merged.contains(y) by {
            assert(all.to_multiset().count(y) == merged.to_multiset().count(y));
        }
        if let Some(best) = best_of(all, k) {
            if let Some(found) = lookup(merged, k, u64::MAX) {
                lemma_same_effect(inputs, all, best, found);
            } else {
                assert(merged.contains(best));
            }
        } else if let Some(found) = lookup(merged, k, u64::MAX) {
            assert(all.contains(found));
        }
    }
    lemma_strict_is_unique(out, user_entries(kept));
}

/// Two versions of one user key that no other is newer than do the same.
proof fn lemma_same_effect(inputs: Seq<Seq<Entry>>, all: Seq<Entry>, x: Entry, y: Entry)
    requires
        newest_agree(all_entries(inputs)),
        all.to_multiset() == all_entries(inputs),
        all.contains(x),
        all_entries(inputs).contains(y),
        user_part(x.0) == user_part(y.0),
        forall|z: Entry| #[trigger]
            all.contains(z) && user_part(z.0) == user_part(x.0) ==> sequence_part(z.0)
                <= sequence_part(x.0),
        sequence_part(x.0) <= sequence_part(y.0),
    ensures
        same_effect(x, y),
{
    broadcast use vstd::seq_lib::group_to_multiset_ensures;

    let entries = all_entries(inputs);
    assert forall|z: Entry| entries.contains(z) <==> all.contains(z) by {
        assert(all.to_multiset().count(z) == entries.count(z));
    }
    assert(is_newest(entries, x));
    assert(is_newest(entries, y));
}

/// Whether entries with the same key are the same, where no version of their
/// user key comes before them.
pub open spec fn first_ties_agree(entries: Multiset<Entry>) -> bool {
    forall|x: Entry, y: Entry| #[trigger]
        entries.contains(x) && #[trigger] entries.contains(y) && x.0 == y.0 && comes_first(
            entries,
            x,
        ) ==> x == y
}

/// Whether no version of the same user key comes before an entry.
pub open spec fn comes_first(entries: Multiset<Entry>, x: Entry) -> bool {
    forall|z: Entry| #[trigger]
        entries.contains(z) && user_part(z.0) == user_part(x.0) ==> packed_part(z.0)
            <= packed_part(x.0)
}

/// Where ties at the front agree, all merges of sorted inputs lead to the same
/// compaction.
pub proof fn lemma_kept_is_unique(inputs: Seq<Seq<Entry>>, a: Seq<Entry>, b: Seq<Entry>)
    requires
        all_comparable::<InternalKeyComparator>(inputs),
        all_ascending::<InternalKeyComparator>(inputs),
        first_ties_agree(all_entries(inputs)),
        is_merge::<InternalKeyComparator>(inputs, a),
        is_merge::<InternalKeyComparator>(inputs, b),
    ensures
        bottommost(a) == bottommost(b),
{
    lemma_merge_ascends::<InternalKeyComparator>(inputs, a);
    lemma_merge_ascends::<InternalKeyComparator>(inputs, b);
    lemma_merge_keeps_entries::<InternalKeyComparator>(inputs, a);
    lemma_merge_keeps_entries::<InternalKeyComparator>(inputs, b);
    assert(all_internal(a) && all_internal(b));
    lemma_first_is_newest(a);
    lemma_first_is_newest(b);
    lemma_bottommost_ascends(a);
    lemma_bottommost_ascends(b);
    let kept_a = bottommost(a);
    let kept_b = bottommost(b);
    assert forall|k: Seq<u8>| #[trigger] lookup(a, k, u64::MAX) == lookup(b, k, u64::MAX) by {
        lemma_same_first(inputs, a, b, k);
    }
    assert forall|x: Entry| #[trigger] user_entries(kept_a).contains(x) <==> user_entries(
        kept_b,
    ).contains(x) by {
        let (k, v) = x;
        lemma_lookup_in_strict(kept_a, k, v);
        lemma_lookup_in_strict(kept_b, k, v);
        lemma_lookup_kept(a, k);
        lemma_lookup_kept(b, k);
        assert(lookup(a, k, u64::MAX) == lookup(b, k, u64::MAX));
    }
    lemma_strict_is_unique(user_entries(kept_a), user_entries(kept_b));
    assert(kept_a.len() == user_entries(kept_a).len());
    assert forall|i: int| 0 <= i < kept_a.len() implies kept_a[i] == kept_b[i] by {
        let k = user_part(kept_a[i].0);
        assert(user_entries(kept_a)[i] == user_entries(kept_b)[i]);
        lemma_only_of_key(kept_a, i);
        lemma_only_of_key(kept_b, i);
        lemma_lookup_kept(a, k);
        lemma_lookup_kept(b, k);
        assert(lookup(a, k, u64::MAX) == lookup(b, k, u64::MAX));
    }
    assert(kept_a =~= kept_b);
}

/// Two merges have the same first version of a user key.
proof fn lemma_same_first(
    inputs: Seq<Seq<Entry>>,
    a: Seq<Entry>,
    b: Seq<Entry>,
    k: Seq<u8>,
)
    requires
        first_ties_agree(all_entries(inputs)),
        all_internal(a),
        all_internal(b),
        ascending::<InternalKeyComparator>(a),
        ascending::<InternalKeyComparator>(b),
        a.to_multiset() == all_entries(inputs),
        b.to_multiset() == all_entries(inputs),
    ensures
        lookup(a, k, u64::MAX) == lookup(b, k, u64::MAX),
{
    broadcast use vstd::seq_lib::group_to_multiset_ensures;

    let entries = all_entries(inputs);
    assert forall|x: Entry| a.contains(x) <==> entries.contains(x) by {
        assert(a.to_multiset().count(x) == entries.count(x));
    }
    assert forall|x: Entry| b.contains(x) <==> entries.contains(x) by {
        assert(b.to_multiset().count(x) == entries.count(x));
    }
    lemma_lookup_comes_first(a, k);
    lemma_lookup_comes_first(b, k);
    match (lookup(a, k, u64::MAX), lookup(b, k, u64::MAX)) {
        (Some(x), Some(y)) => {
            assert(b.contains(x) && a.contains(y));
            assert(packed_part(x.0) == packed_part(y.0));
            lemma_split_key(x.0);
            lemma_split_key(y.0);
            assert(comes_first(entries, x));
        },
        (Some(x), None) => {
            assert(b.contains(x));
        },
        (None, Some(y)) => {
            assert(a.contains(y));
        },
        _ => {},
    }
}

/// What a lookup of the newest version finds, no version comes before.
proof fn lemma_lookup_comes_first(merged: Seq<Entry>, k: Seq<u8>)
    requires
        all_internal(merged),
        ascending::<InternalKeyComparator>(merged),
    ensures
        match lookup(merged, k, u64::MAX) {
            Some(found) => {
                &&& merged.contains(found)
                &&& is_internal_key(found.0)
                &&& user_part(found.0) == k
                &&& forall|x: Entry| #[trigger]
                    merged.contains(x) && user_part(x.0) == k ==> packed_part(x.0) <= packed_part(
                        found.0,
                    )
            },
            None => forall|x: Entry| #[trigger] merged.contains(x) ==> user_part(x.0) != k,
        },
{
    lemma_lookup_first(merged, k);
    lemma_first_is_newest(merged);
    if let Some(found) = lookup(merged, k, u64::MAX) {
        let p = choose|p: int|
            0 <= p < merged.len() && merged[p] == found && #[trigger] first_of_key(merged, p);
        assert(is_internal_key(merged[p].0));
        assert forall|x: Entry| #[trigger]
            merged.contains(x) && user_part(x.0) == k implies packed_part(x.0) <= packed_part(
            found.0,
        ) by {
            let q = choose|q: int| 0 <= q < merged.len() && merged[q] == x;
            assert(packed_part(merged[q].0) <= packed_part(merged[p].0));
        }
    }
}

/// In what is kept, a user key is found exactly if its first version is no
/// tombstone, and that version is found.
proof fn lemma_lookup_kept(merged: Seq<Entry>, k: Seq<u8>)
    requires
        all_internal(merged),
        user_keys_ascend(merged),
    ensures
        lookup(bottommost(merged), k, u64::MAX) == match lookup(merged, k, u64::MAX) {
            Some(found) if !is_tombstone_key(found.0) => Some(found),
            _ => None,
        },
{
    let kept = bottommost(merged);
    lemma_bottommost_picks(merged);
    assert(merged =~= merged.take(merged.len() as int));
    lemma_picked_ascends(merged, merged, bottommost_pick(merged));
    lemma_lookup_first(kept, k);
    lemma_lookup_first(merged, k);
    lemma_bottommost_readers(merged, k);
    lemma_kept_no_tombstones(merged, k);
    if let Some(found) = lookup(kept, k, u64::MAX) {
        let p = choose|p: int|
            0 <= p < kept.len() && kept[p] == found && #[trigger] first_of_key(kept, p);
        assert(is_picked(merged, bottommost_pick(merged), merged.len() as int, kept[p]));
        let q = choose|q: int|
            0 <= q < merged.len() && #[trigger] bottommost_pick(merged)(q) && merged[q] == found;
        assert(first_of_key(merged, q));
        assert(merged.contains(merged[q]));
        let first = lookup(merged, k, u64::MAX)->0;
        let r = choose|r: int|
            0 <= r < merged.len() && merged[r] == first && #[trigger] first_of_key(merged, r);
        if q < r {
            assert(user_part(merged[q].0) != user_part(merged[r].0));
        } else if r < q {
            assert(user_part(merged[r].0) != user_part(merged[q].0));
        }
    }
}

/// Where every user key is there once, a lookup finds it.
proof fn lemma_only_of_key(kept: Seq<Entry>, i: int)
    requires
        strictly_ascending(user_entries(kept)),
        0 <= i < kept.len(),
    ensures
        lookup(kept, user_part(kept[i].0), u64::MAX) == Some(kept[i]),
{
    let k = user_part(kept[i].0);
    let names = user_entries(kept);
    lemma_lookup_first(kept, k);
    assert(kept.contains(kept[i]));
    let found = lookup(kept, k, u64::MAX)->0;
    let p = choose|p: int|
        0 <= p < kept.len() && kept[p] == found && #[trigger] first_of_key(kept, p);
    lemma_bytes_order(k, k, k);
    if i < p {
        assert(bytes_before(names[i].0, names[p].0));
    } else if p < i {
        assert(bytes_before(names[p].0, names[i].0));
    }
}

/// What the default compaction keeps is no tombstone.
proof fn lemma_kept_no_tombstones(merged: Seq<Entry>, k: Seq<u8>)
    requires
        all_internal(merged),
        user_keys_ascend(merged),
    ensures
        lookup(bottommost(merged), k, u64::MAX) matches Some(found) ==> !is_tombstone_key(found.0),
{
    let kept = bottommost(merged);
    lemma_bottommost_picks(merged);
    assert(merged =~= merged.take(merged.len() as int));
    lemma_picked_ascends(merged, merged, bottommost_pick(merged));
    lemma_lookup_first(kept, k);
    if let Some(found) = lookup(kept, k, u64::MAX) {
        let p = choose|p: int|
            0 <= p < kept.len() && kept[p] == found && #[trigger] first_of_key(kept, p);
        assert(is_picked(merged, bottommost_pick(merged), merged.len() as int, kept[p]));
    }
}

/// The best version of a user key: that with the highest sequence number, the
/// first of several.
proof fn lemma_best_is(entries: Seq<Entry>, user_key: Seq<u8>, p: int)
    requires
        0 <= p < entries.len(),
        user_part(entries[p].0) == user_key,
        forall|q: int|
            0 <= q < entries.len() && user_part((#[trigger] entries[q]).0) == user_key
                ==> sequence_part(entries[q].0) <= sequence_part(entries[p].0),
        forall|q: int|
            0 <= q < p && user_part((#[trigger] entries[q]).0) == user_key ==> sequence_part(
                entries[q].0,
            ) < sequence_part(entries[p].0),
    ensures
        best_of(entries, user_key) == Some(entries[p]),
    decreases entries.len(),
{
    let before = entries.drop_last();
    if p < before.len() {
        assert forall|q: int|
            0 <= q < before.len() && user_part((#[trigger] before[q]).0) == user_key implies
            sequence_part(before[q].0) <= sequence_part(before[p].0) by {
            assert(before[q] == entries[q]);
        }
        assert forall|q: int|
            0 <= q < p && user_part((#[trigger] before[q]).0) == user_key implies sequence_part(
            before[q].0,
        ) < sequence_part(before[p].0) by {
            assert(before[q] == entries[q]);
        }
        lemma_best_is(before, user_key, p);
        assert(entries[entries.len() - 1] == entries.last());
    } else {
        lemma_best_of(before, user_key);
        if let Some(best) = best_of(before, user_key) {
            let q = choose|q: int| 0 <= q < before.len() && before[q] == best;
            assert(entries[q] == best);
        }
    }
}

/// The plain way to compact, by the bytes of the keys: the version of a user key,
/// which is all but the last eight bytes, with the highest sequence number, the
/// first of several, decides. Unless its type byte is 0x00 or 0x07, its value and
/// no other comes out under the user key; else nothing does.
pub proof fn lemma_plain_by_bytes(entries: Seq<Entry>, out: Seq<Entry>, p: int)
    requires
        is_plain_compaction(entries, out),
        0 <= p < entries.len(),
        forall|q: int| 0 <= q < entries.len() ==> (#[trigger] entries[q]).0.len() >= 8,
        forall|q: int|
            0 <= q < entries.len() && (#[trigger] entries[q]).0.take(entries[q].0.len() - 8)
                == entries[p].0.take(entries[p].0.len() - 8) ==> sequence_part(entries[q].0)
                <= sequence_part(entries[p].0),
        forall|q: int|
            0 <= q < p && (#[trigger] entries[q]).0.take(entries[q].0.len() - 8)
                == entries[p].0.take(entries[p].0.len() - 8) ==> sequence_part(entries[q].0)
                < sequence_part(entries[p].0),
    ensures
        ({
            let (key, value) = entries[p];
            let n = key.len() - 8;
            let kept = key[n] != 0x00 && key[n] != 0x07;
            &&& kept ==> out.contains((key.take(n), value))
            &&& forall|j: int|
                0 <= j < out.len() && (#[trigger] out[j]).0 == key.take(n) ==> kept && out[j].1
                    == value
        }),
{
    let (key, value) = entries[p];
    let n = key.len() - 8;
    let user_key = key.take(n);
    assert forall|q: int| 0 <= q < entries.len() implies user_part((#[trigger] entries[q]).0)
        == entries[q].0.take(entries[q].0.len() - 8) by {
        lemma_key_bytes(entries[q].0);
        assert(user_part(entries[q].0) =~= entries[q].0.take(entries[q].0.len() - 8));
    }
    lemma_best_is(entries, user_key, p);
    lemma_key_bytes(key);
    lemma_type_bytes(key);
    assert forall|j: int| 0 <= j < out.len() && (#[trigger] out[j]).0 == user_key implies key[n]
        != 0x00 && key[n] != 0x07 && out[j].1 == value by {
        assert(out.contains(out[j]));
        assert(out[j] == (user_key, out[j].1));
        assert(is_live(entries, user_key, out[j].1));
    }
    if key[n] != 0x00 && key[n] != 0x07 {
        assert(is_live(entries, user_key, value));
        assert(out.contains((user_key, value)));
    }
}

/// Nothing comes out of the plain way under a user key that no entry has.
pub proof fn lemma_plain_invents_nothing(entries: Seq<Entry>, out: Seq<Entry>, j: int)
    requires
        is_plain_compaction(entries, out),
        forall|q: int| 0 <= q < entries.len() ==> (#[trigger] entries[q]).0.len() >= 8,
        0 <= j < out.len(),
    ensures
        exists|q: int|
            0 <= q < entries.len() && (#[trigger] entries[q]).0.take(entries[q].0.len() - 8)
                == out[j].0 && entries[q].1 == out[j].1,
{
    assert(out.contains(out[j]));
    assert(out[j] == (out[j].0, out[j].1));
    assert(is_live(entries, out[j].0, out[j].1));
    lemma_best_of(entries, out[j].0);
    let best = best_of(entries, out[j].0)->0;
    let q = choose|q: int| 0 <= q < entries.len() && entries[q] == best;
    lemma_key_bytes(entries[q].0);
    assert(user_part(entries[q].0) =~= entries[q].0.take(entries[q].0.len() - 8));
    assert(entries[q].0.take(entries[q].0.len() - 8) == out[j].0);
}

/// The types of the plain way, by their bytes, and the order of what comes out.
pub proof fn lemma_plain_types(byte: u8, entries: Seq<Entry>, out: Seq<Entry>)
    ensures
        plain_type_of(byte) == ValueType::Deletion <==> byte == 0x00,
        plain_type_of(byte) == ValueType::Value <==> byte == 0x01,
        plain_type_of(byte) == ValueType::SingleDeletion <==> byte == 0x07,
        plain_type_of(byte) matches ValueType::Other(other) ==> other == byte,
        is_plain_compaction(entries, out) ==> forall|i: int, j: int|
            0 <= i < j < out.len() ==> bytes_before((#[trigger] out[i]).0, (#[trigger] out[j]).0),
        SUFFIX_LEN == 8,
{
    if is_plain_compaction(entries, out) {
        assert forall|i: int, j: int| 0 <= i < j < out.len() implies bytes_before(
            (#[trigger] out[i]).0,
            (#[trigger] out[j]).0,
        ) by {
            assert(bytes_before(out[i].0, out[j].0));
        }
    }
}

} // verus!
