//! What it means to merge sorted inputs, and what follows from it.

use crate::entry::Entry;
use crate::merge::cmp::KeyComparator;
use vstd::multiset::Multiset;
use vstd::prelude::*;

verus! {

/// Whether input `i` has an entry left.
pub open spec fn has_front(inputs: Seq<Seq<Entry>>, i: int) -> bool {
    0 <= i < inputs.len() && inputs[i].len() > 0
}

/// The key at the front of input `i`.
pub open spec fn front_key(inputs: Seq<Seq<Entry>>, i: int) -> Seq<u8> {
    inputs[i][0].0
}

/// Whether no other front comes before the one of input `i`.
pub open spec fn is_smallest<C: KeyComparator>(inputs: Seq<Seq<Entry>>, i: int) -> bool {
    &&& has_front(inputs, i)
    &&& forall|j: int|
        j != i && #[trigger] has_front(inputs, j) ==> !C::before(
            front_key(inputs, j),
            front_key(inputs, i),
        )
}

/// The inputs without the entry at the front of input `i`.
pub open spec fn without_front(inputs: Seq<Seq<Entry>>, i: int) -> Seq<Seq<Entry>> {
    inputs.update(i, inputs[i].drop_first())
}

/// Whether `out` is what is left of the inputs when, step by step, a front
/// that no other comes before is taken. Between equal keys either may go
/// first.
pub open spec fn is_merge<C: KeyComparator>(inputs: Seq<Seq<Entry>>, out: Seq<Entry>) -> bool
    decreases out.len(),
{
    if out.len() == 0 {
        forall|i: int| !#[trigger] has_front(inputs, i)
    } else {
        exists|i: int|
            {
                &&& #[trigger] is_smallest::<C>(inputs, i)
                &&& inputs[i][0] == out[0]
                &&& is_merge::<C>(without_front(inputs, i), out.drop_first())
            }
    }
}

/// How many entries are left.
pub open spec fn left_in(inputs: Seq<Seq<Entry>>) -> nat
    decreases inputs.len(),
{
    if inputs.len() == 0 {
        0
    } else {
        left_in(inputs.drop_last()) + inputs.last().len()
    }
}

/// Taking a front leaves fewer entries.
pub proof fn lemma_left_in(inputs: Seq<Seq<Entry>>, i: int)
    requires
        has_front(inputs, i),
    ensures
        left_in(without_front(inputs, i)) < left_in(inputs),
    decreases inputs.len(),
{
    let next = without_front(inputs, i);
    if i == inputs.len() - 1 {
        assert(next.drop_last() =~= inputs.drop_last());
    } else {
        assert(next.drop_last() =~= without_front(inputs.drop_last(), i));
        lemma_left_in(inputs.drop_last(), i);
    }
}

/// Whether every key can be compared.
pub open spec fn all_comparable<C: KeyComparator>(inputs: Seq<Seq<Entry>>) -> bool {
    forall|i: int, k: int|
        0 <= i < inputs.len() && 0 <= k < inputs[i].len() ==> C::comparable(
            #[trigger] inputs[i][k].0,
        )
}

/// Whether at most one input has entries.
pub open spec fn at_most_one_input(inputs: Seq<Seq<Entry>>) -> bool {
    forall|i: int, j: int| #[trigger]
        has_front(inputs, i) && #[trigger] has_front(inputs, j) ==> i == j
}

/// Whether the inputs can be merged: their keys can be compared, or there is
/// nothing to compare.
pub open spec fn mergeable<C: KeyComparator>(inputs: Seq<Seq<Entry>>) -> bool {
    all_comparable::<C>(inputs) || at_most_one_input(inputs)
}

/// Whether an entry never comes before one in front of it.
pub open spec fn ascending<C: KeyComparator>(entries: Seq<Entry>) -> bool {
    forall|a: int, b: int|
        0 <= a < b < entries.len() ==> !C::before(#[trigger] entries[b].0, #[trigger] entries[a].0)
}

/// Whether every input is sorted.
pub open spec fn all_ascending<C: KeyComparator>(inputs: Seq<Seq<Entry>>) -> bool {
    forall|i: int| 0 <= i < inputs.len() ==> ascending::<C>(#[trigger] inputs[i])
}

/// All entries of all inputs.
pub open spec fn all_entries(inputs: Seq<Seq<Entry>>) -> Multiset<Entry>
    decreases inputs.len(),
{
    if inputs.len() == 0 {
        Multiset::empty()
    } else {
        all_entries(inputs.drop_last()).add(inputs.last().to_multiset())
    }
}

/// Taking a front keeps the inputs mergeable.
pub proof fn lemma_step_mergeable<C: KeyComparator>(inputs: Seq<Seq<Entry>>, i: int)
    requires
        mergeable::<C>(inputs),
        has_front(inputs, i),
    ensures
        mergeable::<C>(without_front(inputs, i)),
        all_comparable::<C>(inputs) ==> all_comparable::<C>(without_front(inputs, i)),
{
    let next = without_front(inputs, i);
    if all_comparable::<C>(inputs) {
        assert forall|a: int, k: int| 0 <= a < next.len() && 0 <= k < next[a].len() implies
            C::comparable(#[trigger] next[a][k].0) by {
            if a == i {
                assert(next[a][k] == inputs[a][k + 1]);
            } else {
                assert(next[a][k] == inputs[a][k]);
            }
        }
    } else {
        assert forall|a: int, b: int| #[trigger]
            has_front(next, a) && #[trigger] has_front(next, b) implies a == b by {
            assert(has_front(inputs, a) && has_front(inputs, b));
        }
    }
}

/// Taking a front keeps the inputs sorted.
proof fn lemma_step_ascending<C: KeyComparator>(inputs: Seq<Seq<Entry>>, i: int)
    requires
        all_ascending::<C>(inputs),
        has_front(inputs, i),
    ensures
        all_ascending::<C>(without_front(inputs, i)),
{
    let next = without_front(inputs, i);
    assert forall|j: int| 0 <= j < next.len() implies ascending::<C>(#[trigger] next[j]) by {
        assert(ascending::<C>(inputs[j]));
        if j == i {
            assert forall|a: int, b: int| 0 <= a < b < next[j].len() implies !C::before(
                #[trigger] next[j][b].0,
                #[trigger] next[j][a].0,
            ) by {
                assert(!C::before(inputs[j][b + 1].0, inputs[j][a + 1].0));
            }
        }
    }
}

/// Taking a front takes one entry.
proof fn lemma_step_entries(inputs: Seq<Seq<Entry>>, i: int)
    requires
        has_front(inputs, i),
    ensures
        all_entries(inputs) == all_entries(without_front(inputs, i)).insert(inputs[i][0]),
    decreases inputs.len(),
{
    let next = without_front(inputs, i);
    let n = inputs.len() - 1;
    if i == n {
        assert(next.drop_last() =~= inputs.drop_last());
        lemma_first_entry(inputs[n]);
        assert(all_entries(inputs) =~= all_entries(next).insert(inputs[i][0]));
    } else {
        assert(next.drop_last() =~= without_front(inputs.drop_last(), i));
        lemma_step_entries(inputs.drop_last(), i);
        assert(all_entries(inputs) =~= all_entries(next).insert(inputs[i][0]));
    }
}

/// A sequence is its first element and the rest.
pub proof fn lemma_first_entry(entries: Seq<Entry>)
    requires
        entries.len() > 0,
    ensures
        entries.to_multiset() == entries.drop_first().to_multiset().insert(entries[0]),
{
    broadcast use vstd::seq_lib::group_to_multiset_ensures;

    assert(entries =~= entries.drop_first().insert(0, entries[0]));
    vstd::seq_lib::to_multiset_insert(entries.drop_first(), 0, entries[0]);
}

proof fn lemma_no_entries(inputs: Seq<Seq<Entry>>)
    requires
        forall|i: int| !#[trigger] has_front(inputs, i),
    ensures
        all_entries(inputs) == Multiset::<Entry>::empty(),
    decreases inputs.len(),
{
    broadcast use vstd::seq_lib::group_to_multiset_ensures;

    if inputs.len() > 0 {
        let n = inputs.len() - 1;
        let before = inputs.drop_last();
        assert forall|i: int| !#[trigger] has_front(before, i) by {
            assert(!has_front(inputs, i));
        }
        lemma_no_entries(before);
        assert(!has_front(inputs, n));
        assert(inputs[n].to_multiset() =~= Multiset::<Entry>::empty());
        assert(all_entries(inputs) =~= Multiset::<Entry>::empty());
    }
}

/// Merging neither drops, adds nor changes an entry.
pub proof fn lemma_merge_keeps_entries<C: KeyComparator>(
    inputs: Seq<Seq<Entry>>,
    out: Seq<Entry>,
)
    requires
        is_merge::<C>(inputs, out),
    ensures
        out.to_multiset() == all_entries(inputs),
    decreases out.len(),
{
    broadcast use vstd::seq_lib::group_to_multiset_ensures;

    if out.len() == 0 {
        lemma_no_entries(inputs);
        assert(out.to_multiset() =~= Multiset::<Entry>::empty());
    } else {
        let i = choose|i: int|
            {
                &&& #[trigger] is_smallest::<C>(inputs, i)
                &&& inputs[i][0] == out[0]
                &&& is_merge::<C>(without_front(inputs, i), out.drop_first())
            };
        lemma_merge_keeps_entries::<C>(without_front(inputs, i), out.drop_first());
        lemma_step_entries(inputs, i);
        lemma_first_entry(out);
    }
}

/// Every entry that comes out was in an input.
pub proof fn lemma_merge_origin<C: KeyComparator>(
    inputs: Seq<Seq<Entry>>,
    out: Seq<Entry>,
    p: int,
) -> (at: (int, int))
    requires
        is_merge::<C>(inputs, out),
        0 <= p < out.len(),
    ensures
        0 <= at.0 < inputs.len(),
        0 <= at.1 < inputs[at.0].len(),
        inputs[at.0][at.1] == out[p],
    decreases out.len(),
{
    let i = choose|i: int|
        {
            &&& #[trigger] is_smallest::<C>(inputs, i)
            &&& inputs[i][0] == out[0]
            &&& is_merge::<C>(without_front(inputs, i), out.drop_first())
        };
    if p == 0 {
        (i, 0)
    } else {
        let at = lemma_merge_origin::<C>(without_front(inputs, i), out.drop_first(), p - 1);
        assert(out.drop_first()[p - 1] == out[p]);
        if at.0 == i {
            (at.0, at.1 + 1)
        } else {
            at
        }
    }
}

/// Merging sorted inputs gives a sorted output.
pub proof fn lemma_merge_ascends<C: KeyComparator>(inputs: Seq<Seq<Entry>>, out: Seq<Entry>)
    requires
        is_merge::<C>(inputs, out),
        all_comparable::<C>(inputs),
        all_ascending::<C>(inputs),
    ensures
        ascending::<C>(out),
        forall|p: int| 0 <= p < out.len() ==> C::comparable(#[trigger] out[p].0),
    decreases out.len(),
{
    if out.len() > 0 {
        let i = choose|i: int|
            {
                &&& #[trigger] is_smallest::<C>(inputs, i)
                &&& inputs[i][0] == out[0]
                &&& is_merge::<C>(without_front(inputs, i), out.drop_first())
            };
        let next = without_front(inputs, i);
        let rest = out.drop_first();
        lemma_step_mergeable::<C>(inputs, i);
        lemma_step_ascending::<C>(inputs, i);
        lemma_merge_ascends::<C>(next, rest);
        assert forall|p: int| 0 <= p < out.len() implies C::comparable(#[trigger] out[p].0) by {
            if p == 0 {
                assert(C::comparable(inputs[i][0].0));
            } else {
                assert(rest[p - 1] == out[p]);
            }
        }
        assert forall|a: int, b: int| 0 <= a < b < out.len() implies !C::before(
            #[trigger] out[b].0,
            #[trigger] out[a].0,
        ) by {
            assert(rest[b - 1] == out[b]);
            if a > 0 {
                assert(rest[a - 1] == out[a]);
            } else {
                let at = lemma_merge_origin::<C>(inputs, out, b);
                let source = inputs[at.0];
                assert(has_front(inputs, at.0));
                assert(C::comparable(inputs[i][0].0));
                assert(C::comparable(inputs[at.0][0].0));
                assert(C::comparable(inputs[at.0][at.1].0));
                assert(ascending::<C>(source));
                C::order_laws(out[0].0, source[0].0, source[0].0);
                C::order_laws(out[0].0, out[0].0, out[0].0);
                assert(!C::before(source[0].0, out[0].0));
                if at.1 > 0 {
                    C::order_laws(out[0].0, source[0].0, source[at.1].0);
                }
            }
        }
    }
}

/// Whether entries with equal keys are equal.
pub open spec fn ties_agree<C: KeyComparator>(entries: Multiset<Entry>) -> bool {
    forall|x: Entry, y: Entry| #[trigger]
        entries.contains(x) && #[trigger] entries.contains(y) && !C::before(x.0, y.0) && !C::before(
            y.0,
            x.0,
        ) ==> x == y
}

/// There is only one way to sort entries of which no two different ones have
/// equal keys.
pub proof fn lemma_sorted_is_unique<C: KeyComparator>(a: Seq<Entry>, b: Seq<Entry>)
    requires
        ascending::<C>(a),
        ascending::<C>(b),
        a.to_multiset() == b.to_multiset(),
        ties_agree::<C>(a.to_multiset()),
    ensures
        a == b,
    decreases a.len(),
{
    broadcast use vstd::seq_lib::group_to_multiset_ensures;

    a.to_multiset_ensures();
    b.to_multiset_ensures();
    if a.len() == 0 {
        assert(a =~= b);
    } else {
        let x = a[0];
        let y = b[0];
        assert(a.contains(x) && b.contains(y));
        assert(a.to_multiset().count(x) > 0 && b.to_multiset().count(y) > 0);
        assert(b.contains(x) && a.contains(y));
        let p = choose|p: int| 0 <= p < b.len() && b[p] == x;
        let q = choose|q: int| 0 <= q < a.len() && a[q] == y;
        if p > 0 && q > 0 {
            assert(!C::before(b[p].0, b[0].0));
            assert(!C::before(a[q].0, a[0].0));
            assert(a.to_multiset().contains(x) && a.to_multiset().contains(y));
        }
        assert(x == y);
        lemma_first_entry(a);
        lemma_first_entry(b);
        let ra = a.drop_first();
        let rb = b.drop_first();
        assert(ra.to_multiset() =~= a.to_multiset().remove(x));
        assert(rb.to_multiset() =~= b.to_multiset().remove(x));
        assert forall|i: int, j: int| 0 <= i < j < ra.len() implies !C::before(
            #[trigger] ra[j].0,
            #[trigger] ra[i].0,
        ) by {
            assert(!C::before(a[j + 1].0, a[i + 1].0));
        }
        assert forall|i: int, j: int| 0 <= i < j < rb.len() implies !C::before(
            #[trigger] rb[j].0,
            #[trigger] rb[i].0,
        ) by {
            assert(!C::before(b[j + 1].0, b[i + 1].0));
        }
        assert forall|u: Entry, v: Entry| #[trigger]
            ra.to_multiset().contains(u) && #[trigger] ra.to_multiset().contains(v) && !C::before(
                u.0,
                v.0,
            ) && !C::before(v.0, u.0) implies u == v by {
            assert(a.to_multiset().contains(u) && a.to_multiset().contains(v));
        }
        lemma_sorted_is_unique::<C>(ra, rb);
        assert(a =~= seq![x] + ra);
        assert(b =~= seq![y] + rb);
    }
}

/// Where no two different entries have equal keys, sorted inputs have only one
/// merge: however it is computed, the same comes out.
pub proof fn lemma_merge_is_unique<C: KeyComparator>(
    inputs: Seq<Seq<Entry>>,
    a: Seq<Entry>,
    b: Seq<Entry>,
)
    requires
        is_merge::<C>(inputs, a),
        is_merge::<C>(inputs, b),
        all_comparable::<C>(inputs),
        all_ascending::<C>(inputs),
        ties_agree::<C>(all_entries(inputs)),
    ensures
        a == b,
{
    lemma_merge_ascends::<C>(inputs, a);
    lemma_merge_ascends::<C>(inputs, b);
    lemma_merge_keeps_entries::<C>(inputs, a);
    lemma_merge_keeps_entries::<C>(inputs, b);
    lemma_sorted_is_unique::<C>(a, b);
}

} // verus!
