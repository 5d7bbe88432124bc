//! What the order of keys means byte by byte, and what a merge does to its
//! inputs entry by entry.

use crate::entry::Entry;
use crate::format::internal_key::{is_internal_key, user_part};
use crate::format::laws::{lemma_key_bytes, lemma_newer_key};
use crate::merge::cmp::{
    bytes_before, common_prefix_len, internal_before, leading_value, lemma_bytes_order,
    lemma_common_prefix, lemma_common_prefix_is, BytewiseComparator, InternalKeyComparator,
    KeyComparator,
};
use crate::merge::heap::HeapMerger;
use crate::merge::merged::{
    all_ascending, all_comparable, ascending, has_front, is_merge, is_smallest, mergeable,
    without_front,
};
use crate::merge::merger::{KWayMerge, LoserTreeMerger};
use crate::merge::source::{all_internal, user_keys_ascend, MergeSource};
use vstd::prelude::*;

verus! {

/// At the first difference, wherever it is, the smaller byte comes first.
pub proof fn lemma_smaller_byte_first(a: Seq<u8>, b: Seq<u8>, n: int)
    requires
        0 <= n < a.len(),
        n < b.len(),
        forall|i: int| 0 <= i < n ==> a[i] == b[i],
        a[n] < b[n],
    ensures
        bytes_before(a, b),
        !bytes_before(b, a),
        BytewiseComparator::before(a, b),
        !BytewiseComparator::before(b, a),
{
    lemma_common_prefix_is(a, b, n as nat);
    lemma_bytes_order(a, b, a);
}

/// A byte string comes before every longer one that starts with it.
pub proof fn lemma_shorter_first(a: Seq<u8>, b: Seq<u8>)
    requires
        a.len() < b.len(),
        forall|i: int| 0 <= i < a.len() ==> a[i] == b[i],
    ensures
        bytes_before(a, b),
        !bytes_before(b, a),
        BytewiseComparator::before(a, b),
        !BytewiseComparator::before(b, a),
{
    lemma_common_prefix_is(a, b, a.len());
    lemma_bytes_order(a, b, a);
}

/// No byte string comes before itself.
pub proof fn lemma_not_before_itself(a: Seq<u8>)
    ensures
        !bytes_before(a, a),
        !BytewiseComparator::before(a, a),
        a.len() >= 8 ==> !internal_before(a, a) && !InternalKeyComparator::before(a, a),
{
    lemma_bytes_order(a, a, a);
}

/// Internal keys whose user keys, all but the last eight bytes, first differ at
/// `n`: the smaller byte comes first, whatever follows.
pub proof fn lemma_smaller_user_byte_first(a: Seq<u8>, b: Seq<u8>, n: int)
    requires
        0 <= n < a.len() - 8,
        n < b.len() - 8,
        forall|i: int| 0 <= i < n ==> a[i] == b[i],
        a[n] < b[n],
    ensures
        internal_before(a, b),
        !internal_before(b, a),
        InternalKeyComparator::before(a, b),
        !InternalKeyComparator::before(b, a),
{
    lemma_key_bytes(a);
    lemma_key_bytes(b);
    let x = user_part(a);
    let y = user_part(b);
    assert forall|i: int| 0 <= i < n implies x[i] == y[i] by {
        assert(x[i] == a[i] && y[i] == b[i]);
    }
    assert(x[n] == a[n] && y[n] == b[n]);
    lemma_smaller_byte_first(x, y, n);
    lemma_bytes_order(x, y, x);
}

/// An internal key whose user key is the start of a longer user key comes
/// first, whatever follows.
pub proof fn lemma_shorter_user_key_first(a: Seq<u8>, b: Seq<u8>)
    requires
        8 <= a.len() < b.len(),
        forall|i: int| 0 <= i < a.len() - 8 ==> a[i] == b[i],
    ensures
        internal_before(a, b),
        !internal_before(b, a),
        InternalKeyComparator::before(a, b),
        !InternalKeyComparator::before(b, a),
{
    lemma_key_bytes(a);
    lemma_key_bytes(b);
    let x = user_part(a);
    let y = user_part(b);
    assert forall|i: int| 0 <= i < x.len() implies x[i] == y[i] by {
        assert(x[i] == a[i] && y[i] == b[i]);
    }
    lemma_shorter_first(x, y);
    lemma_bytes_order(x, y, x);
}

/// Of two versions of one user key, the one whose last eight bytes are the
/// larger number, the last byte counting most, comes first.
pub proof fn lemma_newer_version_first(a: Seq<u8>, b: Seq<u8>, n: int)
    requires
        8 <= a.len() == b.len(),
        a.len() - 8 <= n < a.len(),
        forall|i: int| 0 <= i < a.len() && (i < a.len() - 8 || i > n) ==> a[i] == b[i],
        a[n] > b[n],
    ensures
        internal_before(a, b),
        !internal_before(b, a),
        InternalKeyComparator::before(a, b),
        !InternalKeyComparator::before(b, a),
{
    lemma_key_bytes(a);
    lemma_key_bytes(b);
    let x = user_part(a);
    let y = user_part(b);
    assert forall|i: int| 0 <= i < x.len() implies x[i] == y[i] by {
        assert(x[i] == a[i] && y[i] == b[i]);
    }
    assert(x =~= y);
    lemma_newer_key(a, b, n);
    lemma_bytes_order(x, x, x);
}

/// A merge takes the inputs apart entry by entry: nothing is lost, added,
/// changed or doubled, and the entries of one input keep their order.
pub proof fn lemma_merge_interleaves<C: KeyComparator>(
    inputs: Seq<Seq<Entry>>,
    out: Seq<Entry>,
) -> (from: Seq<(int, int)>)
    requires
        is_merge::<C>(inputs, out),
    ensures
        from.len() == out.len(),
        forall|p: int|
            0 <= p < from.len() ==> 0 <= (#[trigger] from[p]).0 < inputs.len() && 0 <= from[p].1
                < inputs[from[p].0].len() && out[p] == inputs[from[p].0][from[p].1],
        forall|p: int, q: int|
            0 <= p < q < from.len() && (#[trigger] from[p]).0 == (#[trigger] from[q]).0
                ==> from[p].1 < from[q].1,
        forall|i: int, k: int|
            0 <= i < inputs.len() && 0 <= k < inputs[i].len() ==> #[trigger] from.contains(
                (i, k),
            ),
    decreases out.len(),
{
    if out.len() == 0 {
        assert forall|i: int, k: int|
            0 <= i < inputs.len() && 0 <= k < inputs[i].len() implies #[trigger] Seq::<
            (int, int),
        >::empty().contains((i, k)) by {
            assert(!has_front(inputs, i));
        }
        Seq::empty()
    } else {
        let w = choose|i: int|
            {
                &&& #[trigger] is_smallest::<C>(inputs, i)
                &&& inputs[i][0] == out[0]
                &&& is_merge::<C>(without_front(inputs, i), out.drop_first())
            };
        let next = without_front(inputs, w);
        let rest = lemma_merge_interleaves::<C>(next, out.drop_first());
        let from = Seq::new(
            out.len(),
            |p: int|
                if p == 0 {
                    (w, 0int)
                } else if rest[p - 1].0 == w {
                    (w, rest[p - 1].1 + 1)
                } else {
                    rest[p - 1]
                },
        );
        assert forall|p: int| 0 <= p < from.len() implies 0 <= (#[trigger] from[p]).0
            < inputs.len() && 0 <= from[p].1 < inputs[from[p].0].len() && out[p]
            == inputs[from[p].0][from[p].1] by {
            if p > 0 {
                assert(out.drop_first()[p - 1] == out[p]);
                assert(out[p] == next[rest[p - 1].0][rest[p - 1].1]);
            }
        }
        assert forall|p: int, q: int|
            0 <= p < q < from.len() && (#[trigger] from[p]).0 == (#[trigger] from[q]).0 implies
            from[p].1 < from[q].1 by {
            assert(0 <= rest[q - 1].1);
            if p > 0 {
                assert(rest[p - 1].0 == rest[q - 1].0);
            }
        }
        assert forall|i: int, k: int|
            0 <= i < inputs.len() && 0 <= k < inputs[i].len() implies #[trigger] from.contains(
            (i, k),
        ) by {
            if i == w && k == 0 {
                assert(from[0] == (i, k));
            } else {
                let old = if i == w { (i, k - 1) } else { (i, k) };
                assert(0 <= old.1 < next[old.0].len());
                assert(next[old.0][old.1] == inputs[i][k]);
                assert(rest.contains(old));
                let p = choose|p: int| 0 <= p < rest.len() && rest[p] == old;
                assert(from[p + 1] == (i, k));
            }
        }
        from
    }
}

/// Which keys can be compared: every byte string bytewise, and every one of at
/// least eight bytes as an internal key.
pub proof fn lemma_comparable_keys(key: Seq<u8>)
    ensures
        BytewiseComparator::comparable(key),
        InternalKeyComparator::comparable(key) <==> key.len() >= 8,
{
}

/// How many bytes two strings have in common at their start.
pub proof fn lemma_bytes_in_common(a: Seq<u8>, b: Seq<u8>)
    ensures
        ({
            let n = common_prefix_len(a, b);
            &&& n <= a.len()
            &&& n <= b.len()
            &&& forall|i: int| 0 <= i < n ==> a[i] == b[i]
            &&& n == a.len() || n == b.len() || a[n as int] != b[n as int]
        }),
{
    lemma_common_prefix(a, b);
}

/// The prefix of a key is its first eight bytes as a number, the first byte
/// counting most, with zeros for those that it does not have.
pub proof fn lemma_key_prefix(key: Seq<u8>)
    ensures
        ({
            let byte = |i: int|
                if i < key.len() {
                    key[i] as int
                } else {
                    0
                };
            &&& leading_value(key, 8) == 0x100_0000_0000_0000 * byte(0) + 0x1_0000_0000_0000 * byte(
                1,
            ) + 0x100_0000_0000 * byte(2) + 0x1_0000_0000 * byte(3) + 0x100_0000 * byte(4)
                + 0x1_0000 * byte(5) + 0x100 * byte(6) + byte(7)
            &&& BytewiseComparator::prefix_of(key) == leading_value(key, 8)
        }),
{
    reveal_with_fuel(leading_value, 9);
}

/// What both mergers do is merge, and they can merge whatever can be compared.
pub proof fn lemma_mergers<S: MergeSource, C: KeyComparator>(
    inputs: Seq<Seq<Entry>>,
    out: Seq<Entry>,
)
    ensures
        <LoserTreeMerger<S, C> as KWayMerge<S>>::merges(inputs, out) <==> is_merge::<C>(
            inputs,
            out,
        ),
        <HeapMerger<S, C> as KWayMerge<S>>::merges(inputs, out) <==> is_merge::<C>(inputs, out),
        (forall|i: int, k: int|
            0 <= i < inputs.len() && 0 <= k < inputs[i].len() ==> C::comparable(
                (#[trigger] inputs[i][k]).0,
            )) ==> <LoserTreeMerger<S, C> as KWayMerge<S>>::can_merge(inputs) && <HeapMerger<
            S,
            C,
        > as KWayMerge<S>>::can_merge(inputs),
{
    if forall|i: int, k: int|
        0 <= i < inputs.len() && 0 <= k < inputs[i].len() ==> C::comparable(
            (#[trigger] inputs[i][k]).0,
        ) {
        assert(all_comparable::<C>(inputs));
    }
}

/// What is asked of the keys of entries and inputs, in full: internal keys have
/// at least eight bytes, and sorted is what has no key before one in front of it.
pub proof fn lemma_asked_of_inputs<C: KeyComparator>(inputs: Seq<Seq<Entry>>, entries: Seq<Entry>)
    ensures
        all_internal(entries) <==> forall|i: int|
            0 <= i < entries.len() ==> (#[trigger] entries[i]).0.len() >= 8,
        user_keys_ascend(entries) <==> forall|i: int, j: int|
            0 <= i <= j < entries.len() ==> !bytes_before(
                user_part((#[trigger] entries[j]).0),
                user_part((#[trigger] entries[i]).0),
            ),
        ascending::<C>(entries) <==> forall|i: int, j: int|
            0 <= i < j < entries.len() ==> !C::before(
                (#[trigger] entries[j]).0,
                (#[trigger] entries[i]).0,
            ),
        all_ascending::<C>(inputs) <==> forall|a: int|
            0 <= a < inputs.len() ==> ascending::<C>(#[trigger] inputs[a]),
        (forall|a: int, i: int|
            0 <= a < inputs.len() && 0 <= i < inputs[a].len() ==> C::comparable(
                (#[trigger] inputs[a][i]).0,
            )) ==> all_comparable::<C>(inputs) && mergeable::<C>(inputs),
        (forall|a: int, b: int|
            0 <= a < b < inputs.len() ==> (#[trigger] inputs[a]).len() == 0 || (
            #[trigger] inputs[b]).len() == 0) ==> mergeable::<C>(inputs),
{
    if user_keys_ascend(entries) {
        assert forall|i: int, j: int| 0 <= i <= j < entries.len() implies !bytes_before(
            user_part((#[trigger] entries[j]).0),
            user_part((#[trigger] entries[i]).0),
        ) by {
            assert(!bytes_before(user_part(entries[j].0), user_part(entries[i].0)));
        }
    }
    if all_internal(entries) {
        assert forall|i: int| 0 <= i < entries.len() implies (#[trigger] entries[i]).0.len() >= 8 by {
            assert(is_internal_key(entries[i].0));
        }
    }
    if ascending::<C>(entries) {
        assert forall|i: int, j: int| 0 <= i < j < entries.len() implies !C::before(
            (#[trigger] entries[j]).0,
            (#[trigger] entries[i]).0,
        ) by {
            assert(!C::before(entries[j].0, entries[i].0));
        }
    }
    if forall|a: int, b: int|
        0 <= a < b < inputs.len() ==> (#[trigger] inputs[a]).len() == 0 || (
        #[trigger] inputs[b]).len() == 0 {
        assert forall|i: int, j: int| #[trigger]
            has_front(inputs, i) && #[trigger] has_front(inputs, j) implies i == j by {
            if i < j {
                assert(inputs[i].len() == 0 || inputs[j].len() == 0);
            } else if j < i {
                assert(inputs[j].len() == 0 || inputs[i].len() == 0);
            }
        }
    }
}

} // verus!
