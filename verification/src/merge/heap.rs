//! Merging by a binary heap of the sources that have entries left, ordered by
//! their fronts.

use crate::entry::{visit_all, Entry, EntryVisitor};
use crate::merge::cmp::{InternalKeyComparator, KeyComparator};
use crate::merge::merged::{
    all_comparable, front_key, has_front, is_merge, is_smallest, left_in, lemma_left_in,
    lemma_step_mergeable, mergeable, without_front,
};
use crate::merge::merger::{
    comes_before, inputs_of, lemma_all_merged, lemma_merged_so_far, lemma_nothing_merged,
    merged_so_far, sources_inv, KWayMerge,
};
use crate::merge::source::MergeSource;
use std::marker::PhantomData;
use vstd::multiset::Multiset;
use vstd::prelude::*;

verus! {

/// Whether the front of source `a` does not come before the front of `b`.
pub open spec fn not_before<C: KeyComparator>(
    inputs: Seq<Seq<Entry>>,
    a: usize,
    b: usize,
) -> bool {
    !C::before(front_key(inputs, a as int), front_key(inputs, b as int))
}

/// Whether the member at `c` does not come before its parent.
pub open spec fn edge_holds<C: KeyComparator>(
    inputs: Seq<Seq<Entry>>,
    heap: Seq<usize>,
    c: int,
) -> bool {
    not_before::<C>(inputs, heap[c], heap[(c - 1) / 2])
}

/// Whether no member comes before its parent.
pub open spec fn is_heap<C: KeyComparator>(inputs: Seq<Seq<Entry>>, heap: Seq<usize>) -> bool {
    forall|c: int| 1 <= c < heap.len() ==> #[trigger] edge_holds::<C>(inputs, heap, c)
}

/// Whether the members of the heap are the sources that have entries left,
/// each once.
pub open spec fn lists_fronts(inputs: Seq<Seq<Entry>>, members: Multiset<usize>) -> bool {
    forall|s: usize| #[trigger] members.count(s) == if has_front(inputs, s as int) {
        1nat
    } else {
        0nat
    }
}

/// Whether all members of a heap can be compared, which has to hold only where
/// there are two.
pub open spec fn heap_comparable<C: KeyComparator>(
    inputs: Seq<Seq<Entry>>,
    heap: Seq<usize>,
) -> bool {
    &&& forall|i: int| 0 <= i < heap.len() ==> has_front(inputs, #[trigger] heap[i] as int)
    &&& heap.len() <= 1 || all_comparable::<C>(inputs)
}

proof fn lemma_swap(heap: Seq<usize>, i: int, j: int)
    requires
        0 <= i < heap.len(),
        0 <= j < heap.len(),
        i != j,
    ensures
        heap.update(i, heap[j]).update(j, heap[i]).to_multiset() == heap.to_multiset(),
{
    lemma_update(heap, i, heap[j]);
    lemma_update(heap.update(i, heap[j]), j, heap[i]);
    broadcast use vstd::seq_lib::group_to_multiset_ensures;

    assert(heap.to_multiset().count(heap[i]) > 0) by {
        assert(heap.contains(heap[i]));
    }
    assert(heap.update(i, heap[j]).update(j, heap[i]).to_multiset() =~= heap.to_multiset());
}

proof fn lemma_update(heap: Seq<usize>, i: int, x: usize)
    requires
        0 <= i < heap.len(),
    ensures
        heap.update(i, x).to_multiset() == heap.to_multiset().remove(heap[i]).insert(x),
{
    assert(heap.update(i, x) =~= heap.remove(i).insert(i, x));
    vstd::seq_lib::to_multiset_remove(heap, i);
    vstd::seq_lib::to_multiset_insert(heap.remove(i), i, x);
}

proof fn lemma_heap_comparable<C: KeyComparator>(inputs: Seq<Seq<Entry>>, heap: Seq<usize>)
    requires
        mergeable::<C>(inputs),
        forall|s: usize| heap.to_multiset().count(s) <= 1,
        forall|s: usize| #[trigger]
            heap.to_multiset().count(s) > 0 ==> has_front(inputs, s as int),
    ensures
        heap_comparable::<C>(inputs, heap),
{
    broadcast use vstd::seq_lib::group_to_multiset_ensures;

    assert forall|i: int| 0 <= i < heap.len() implies has_front(
        inputs,
        #[trigger] heap[i] as int,
    ) by {
        assert(heap.contains(heap[i]));
        assert(heap.to_multiset().count(heap[i]) > 0);
    }
    if heap.len() > 1 {
        heap.lemma_multiset_has_no_duplicates_conv();
        assert(heap[0] != heap[1]);
        assert(has_front(inputs, heap[0] as int) && has_front(inputs, heap[1] as int));
    }
}

/// Not to come before is transitive.
proof fn lemma_not_before<C: KeyComparator>(
    inputs: Seq<Seq<Entry>>,
    a: usize,
    b: usize,
    c: usize,
)
    requires
        all_comparable::<C>(inputs),
        has_front(inputs, a as int),
        has_front(inputs, b as int),
        has_front(inputs, c as int),
        not_before::<C>(inputs, b, a),
        not_before::<C>(inputs, c, b),
    ensures
        not_before::<C>(inputs, c, a),
{
    assert(C::comparable(inputs[a as int][0].0));
    assert(C::comparable(inputs[b as int][0].0));
    assert(C::comparable(inputs[c as int][0].0));
    C::order_laws(
        front_key(inputs, a as int),
        front_key(inputs, b as int),
        front_key(inputs, c as int),
    );
}

proof fn lemma_before_one_way<C: KeyComparator>(inputs: Seq<Seq<Entry>>, a: usize, b: usize)
    requires
        all_comparable::<C>(inputs),
        has_front(inputs, a as int),
        has_front(inputs, b as int),
        !not_before::<C>(inputs, a, b),
    ensures
        not_before::<C>(inputs, b, a),
{
    assert(C::comparable(inputs[a as int][0].0));
    assert(C::comparable(inputs[b as int][0].0));
    C::order_laws(
        front_key(inputs, a as int),
        front_key(inputs, b as int),
        front_key(inputs, a as int),
    );
}

/// No member comes before the root.
proof fn lemma_root<C: KeyComparator>(inputs: Seq<Seq<Entry>>, heap: Seq<usize>, i: int)
    requires
        heap_comparable::<C>(inputs, heap),
        is_heap::<C>(inputs, heap),
        1 <= i < heap.len(),
    ensures
        not_before::<C>(inputs, heap[i], heap[0]),
    decreases i,
{
    assert(edge_holds::<C>(inputs, heap, i));
    let p = (i - 1) / 2;
    if p > 0 {
        lemma_root::<C>(inputs, heap, p);
        lemma_not_before::<C>(inputs, heap[0], heap[p], heap[i]);
    }
}

/// Merges by taking the source at the root of a heap again and again.
pub struct HeapMerger<S: MergeSource, C: KeyComparator = InternalKeyComparator> {
    sources: Vec<S>,
    heap: Vec<usize>,
    _comparator: PhantomData<C>,
}

impl<S: MergeSource, C: KeyComparator> HeapMerger<S, C> {
    spec fn base_inv(&self) -> bool {
        &&& sources_inv(self.sources@)
        &&& mergeable::<C>(inputs_of(self.sources@))
    }

    /// Whether the front of the member at `i` comes before the one at `j`.
    fn less(&self, i: usize, j: usize) -> (r: bool)
        requires
            self.base_inv(),
            heap_comparable::<C>(inputs_of(self.sources@), self.heap@),
            i < self.heap@.len(),
            j < self.heap@.len(),
            self.heap@.len() > 1,
        ensures
            r == !not_before::<C>(
                inputs_of(self.sources@),
                self.heap@[i as int],
                self.heap@[j as int],
            ),
    {
        let a: usize = self.heap[i];
        let b: usize = self.heap[j];
        let ghost inputs = inputs_of(self.sources@);
        assert(has_front(inputs, a as int) && has_front(inputs, b as int));
        match (self.sources[a].peek(), self.sources[b].peek()) {
            (Some((ka, _)), Some((kb, _))) => {
                assert(C::comparable(inputs[a as int][0].0));
                assert(C::comparable(inputs[b as int][0].0));
                comes_before::<C>(ka, kb)
            },
            _ => false,
        }
    }

    fn swap(&mut self, i: usize, j: usize)
        requires
            i < old(self).heap@.len(),
            j < old(self).heap@.len(),
            i != j,
        ensures
            final(self).sources@ == old(self).sources@,
            final(self).heap@ == old(self).heap@.update(
                i as int,
                old(self).heap@[j as int],
            ).update(j as int, old(self).heap@[i as int]),
            final(self).heap@.to_multiset() == old(self).heap@.to_multiset(),
    {
        proof {
            lemma_swap(self.heap@, i as int, j as int);
        }
        let a: usize = self.heap[i];
        let b: usize = self.heap[j];
        self.heap[i] = b;
        self.heap[j] = a;
    }

    /// Lets the member at `start` rise to where it belongs.
    fn sift_up(&mut self, start: usize)
        requires
            old(self).base_inv(),
            heap_comparable::<C>(inputs_of(old(self).sources@), old(self).heap@),
            start == old(self).heap@.len() - 1,
            forall|c: int|
                1 <= c < start ==> #[trigger] edge_holds::<C>(
                    inputs_of(old(self).sources@),
                    old(self).heap@,
                    c,
                ),
        ensures
            final(self).sources@ == old(self).sources@,
            final(self).heap@.to_multiset() == old(self).heap@.to_multiset(),
            is_heap::<C>(inputs_of(final(self).sources@), final(self).heap@),
    {
        let mut p: usize = start;
        let ghost inputs = inputs_of(self.sources@);
        let ghost len = self.heap@.len();
        let mut rising = true;
        while rising
            invariant
                self.base_inv(),
                self.sources@ == old(self).sources@,
                inputs == inputs_of(self.sources@),
                self.heap@.len() == len,
                p < len,
                self.heap@.to_multiset() == old(self).heap@.to_multiset(),
                heap_comparable::<C>(inputs, self.heap@),
                forall|c: int|
                    1 <= c < len && c != p ==> #[trigger] edge_holds::<C>(inputs, self.heap@, c),
                !rising ==> is_heap::<C>(inputs, self.heap@),
                p > 0 ==> forall|c: int|
                    1 <= c < len && (c - 1) / 2 == p ==> not_before::<C>(
                        inputs,
                        #[trigger] self.heap@[c],
                        self.heap@[(p - 1) / 2],
                    ),
            decreases rising as int, p,
        {
            if p == 0 {
                rising = false;
            } else {
                let parent: usize = (p - 1) / 2;
                if self.less(p, parent) {
                    let ghost before = self.heap@;
                    self.swap(p, parent);
                    proof {
                        lemma_sifted_up::<C>(inputs, before, self.heap@, p as int);
                    }
                    p = parent;
                } else {
                    assert(edge_holds::<C>(inputs, self.heap@, p as int));
                    rising = false;
                }
            }
        }
    }

    /// Lets the member at the root sink to where it belongs.
    fn sift_down(&mut self)
        requires
            old(self).base_inv(),
            heap_comparable::<C>(inputs_of(old(self).sources@), old(self).heap@),
            old(self).heap@.len() > 0,
            forall|c: int|
                1 <= c < old(self).heap@.len() && (c - 1) / 2 != 0 ==> #[trigger] edge_holds::<C>(
                    inputs_of(old(self).sources@),
                    old(self).heap@,
                    c,
                ),
        ensures
            final(self).sources@ == old(self).sources@,
            final(self).heap@.to_multiset() == old(self).heap@.to_multiset(),
            is_heap::<C>(inputs_of(final(self).sources@), final(self).heap@),
    {
        let mut p: usize = 0;
        let len: usize = self.heap.len();
        let ghost inputs = inputs_of(self.sources@);
        let mut sinking = true;
        while sinking
            invariant
                self.base_inv(),
                self.sources@ == old(self).sources@,
                inputs == inputs_of(self.sources@),
                self.heap@.len() == len,
                p < len,
                self.heap@.to_multiset() == old(self).heap@.to_multiset(),
                heap_comparable::<C>(inputs, self.heap@),
                forall|c: int|
                    1 <= c < len && (c - 1) / 2 != p ==> #[trigger] edge_holds::<C>(
                        inputs,
                        self.heap@,
                        c,
                    ),
                !sinking ==> is_heap::<C>(inputs, self.heap@),
                p > 0 ==> forall|c: int|
                    1 <= c < len && (c - 1) / 2 == p ==> not_before::<C>(
                        inputs,
                        #[trigger] self.heap@[c],
                        self.heap@[(p - 1) / 2],
                    ),
            decreases sinking as int, len - p,
        {
            if p >= len / 2 {
                sinking = false;
            } else {
                let left: usize = 2 * p + 1;
                let right: usize = 2 * p + 2;
                let mut child: usize = left;
                if right < len && self.less(right, left) {
                    child = right;
                }
                let ghost other = if child == left { right as int } else { left as int };
                proof {
                    if other < len && child == right {
                        lemma_before_one_way::<C>(
                            inputs,
                            self.heap@[right as int],
                            self.heap@[left as int],
                        );
                    }
                    assert(other < len ==> not_before::<C>(
                        inputs,
                        self.heap@[other],
                        self.heap@[child as int],
                    ));
                }
                let ghost before = self.heap@;
                if self.less(child, p) {
                    self.swap(child, p);
                    proof {
                        lemma_sifted_down::<C>(inputs, before, self.heap@, p as int, child as int);
                    }
                    p = child;
                } else {
                    proof {
                        if other < len {
                            lemma_not_before::<C>(
                                inputs,
                                before[p as int],
                                before[child as int],
                                before[other],
                            );
                        }
                        assert forall|c: int| 1 <= c < len implies #[trigger] edge_holds::<C>(
                            inputs,
                            self.heap@,
                            c,
                        ) by {
                            if (c - 1) / 2 == p {
                                assert(c == child || c == other);
                            }
                        }
                    }
                    sinking = false;
                }
            }
        }
    }

    /// Adds a source.
    fn push(&mut self, source: usize)
        requires
            old(self).base_inv(),
            is_heap::<C>(inputs_of(old(self).sources@), old(self).heap@),
            has_front(inputs_of(old(self).sources@), source as int),
            old(self).heap@.to_multiset().count(source) == 0,
            forall|s: usize| old(self).heap@.to_multiset().count(s) <= 1,
            forall|s: usize| #[trigger]
                old(self).heap@.to_multiset().count(s) > 0 ==> has_front(
                    inputs_of(old(self).sources@),
                    s as int,
                ),
        ensures
            final(self).sources@ == old(self).sources@,
            final(self).heap@.to_multiset() == old(self).heap@.to_multiset().insert(source),
            is_heap::<C>(inputs_of(final(self).sources@), final(self).heap@),
    {
        let ghost before = self.heap@;
        let ghost inputs = inputs_of(self.sources@);
        self.heap.push(source);
        proof {
            vstd::seq_lib::to_multiset_build(before, source);
            lemma_heap_comparable::<C>(inputs, self.heap@);
            assert forall|c: int| 1 <= c < before.len() implies #[trigger] edge_holds::<C>(
                inputs,
                self.heap@,
                c,
            ) by {
                assert(edge_holds::<C>(inputs, before, c));
            }
        }
        let last: usize = self.heap.len() - 1;
        self.sift_up(last);
    }

    /// Takes the source at the root out.
    #[verifier::rlimit(50)]
    fn pop(&mut self) -> (r: Option<usize>)
        requires
            old(self).base_inv(),
            is_heap::<C>(inputs_of(old(self).sources@), old(self).heap@),
            lists_fronts(inputs_of(old(self).sources@), old(self).heap@.to_multiset()),
        ensures
            final(self).sources@ == old(self).sources@,
            is_heap::<C>(inputs_of(final(self).sources@), final(self).heap@),
            match r {
                None => {
                    &&& final(self).heap@ == old(self).heap@
                    &&& forall|i: int| !#[trigger] has_front(inputs_of(old(self).sources@), i)
                },
                Some(s) => {
                    &&& is_smallest::<C>(inputs_of(old(self).sources@), s as int)
                    &&& final(self).heap@.to_multiset() == old(self).heap@.to_multiset().remove(s)
                },
            },
    {
        let ghost inputs = inputs_of(self.sources@);
        let ghost before = self.heap@;
        proof {
            broadcast use vstd::seq_lib::group_to_multiset_ensures;

            lemma_heap_comparable::<C>(inputs, before);
            assert forall|j: int| #[trigger] has_front(inputs, j) implies before.contains(
                j as usize,
            ) by {
                assert(inputs.len() == self.sources.len());
                assert(before.to_multiset().count(j as usize) == 1);
            }
        }
        if self.heap.len() == 0 {
            return None;
        }
        let root: usize = self.heap[0];
        proof {
            assert forall|j: int| j != root && #[trigger] has_front(inputs, j) implies !C::before(
                front_key(inputs, j),
                front_key(inputs, root as int),
            ) by {
                assert(inputs.len() == self.sources.len());
                assert(before.contains(j as usize));
                let i = choose|i: int| 0 <= i < before.len() && before[i] == j as usize;
                lemma_root::<C>(inputs, before, i);
            }
            assert(has_front(inputs, before[0] as int));
            assert(is_smallest::<C>(inputs, root as int));
        }
        let last: usize = self.heap[self.heap.len() - 1];
        self.heap.pop();
        let ghost shorter = self.heap@;
        proof {
            assert(before =~= shorter.push(last));
            vstd::seq_lib::to_multiset_build(shorter, last);
        }
        if self.heap.len() > 0 {
            self.heap[0] = last;
            proof {
                lemma_update(shorter, 0, last);
                assert(shorter.contains(shorter[0]));
                shorter.to_multiset_ensures();
                assert(self.heap@.to_multiset() =~= before.to_multiset().remove(root));
                lemma_heap_comparable::<C>(inputs, self.heap@);
                assert forall|c: int|
                    1 <= c < self.heap@.len() && (c - 1) / 2 != 0 implies #[trigger] edge_holds::<
                    C,
                >(inputs, self.heap@, c) by {
                    assert(edge_holds::<C>(inputs, before, c));
                }
            }
            self.sift_down();
        } else {
            assert(self.heap@.to_multiset() =~= before.to_multiset().remove(root));
        }
        Some(root)
    }
}

/// After a member has risen by one step only its own edge may fail.
proof fn lemma_sifted_up<C: KeyComparator>(
    inputs: Seq<Seq<Entry>>,
    before: Seq<usize>,
    after: Seq<usize>,
    p: int,
)
    requires
        1 <= p < before.len(),
        all_comparable::<C>(inputs),
        heap_comparable::<C>(inputs, before),
        after == before.update(p, before[(p - 1) / 2]).update((p - 1) / 2, before[p]),
        !not_before::<C>(inputs, before[p], before[(p - 1) / 2]),
        forall|c: int|
            1 <= c < before.len() && c != p ==> #[trigger] edge_holds::<C>(inputs, before, c),
        forall|c: int|
            1 <= c < before.len() && (c - 1) / 2 == p ==> not_before::<C>(
                inputs,
                #[trigger] before[c],
                before[(p - 1) / 2],
            ),
    ensures
        heap_comparable::<C>(inputs, after),
        forall|c: int|
            1 <= c < after.len() && c != (p - 1) / 2 ==> #[trigger] edge_holds::<C>(
                inputs,
                after,
                c,
            ),
        (p - 1) / 2 > 0 ==> forall|c: int|
            1 <= c < after.len() && (c - 1) / 2 == (p - 1) / 2 ==> not_before::<C>(
                inputs,
                #[trigger] after[c],
                after[((p - 1) / 2 - 1) / 2],
            ),
{
    let q = (p - 1) / 2;
    lemma_before_one_way::<C>(inputs, before[p], before[q]);
    assert forall|i: int| 0 <= i < after.len() implies has_front(
        inputs,
        #[trigger] after[i] as int,
    ) by {
        assert(has_front(inputs, before[i] as int));
        assert(has_front(inputs, before[p] as int));
        assert(has_front(inputs, before[q] as int));
    }
    assert forall|c: int| 1 <= c < after.len() && c != q implies #[trigger] edge_holds::<C>(
        inputs,
        after,
        c,
    ) by {
        if c != p {
            assert(edge_holds::<C>(inputs, before, c));
            if (c - 1) / 2 == q {
                lemma_not_before::<C>(inputs, before[p], before[q], before[c]);
            }
        }
    }
    if q > 0 {
        assert(edge_holds::<C>(inputs, before, q));
        assert forall|c: int| 1 <= c < after.len() && (c - 1) / 2 == q implies not_before::<C>(
            inputs,
            #[trigger] after[c],
            after[(q - 1) / 2],
        ) by {
            if c != p {
                assert(edge_holds::<C>(inputs, before, c));
                lemma_not_before::<C>(inputs, before[(q - 1) / 2], before[q], before[c]);
            }
        }
    }
}

/// After a member has sunk by one step only the edges below it may fail.
proof fn lemma_sifted_down<C: KeyComparator>(
    inputs: Seq<Seq<Entry>>,
    before: Seq<usize>,
    after: Seq<usize>,
    p: int,
    child: int,
)
    requires
        0 <= p < child < before.len(),
        (child - 1) / 2 == p,
        all_comparable::<C>(inputs),
        heap_comparable::<C>(inputs, before),
        after == before.update(child, before[p]).update(p, before[child]),
        !not_before::<C>(inputs, before[child], before[p]),
        forall|c: int|
            1 <= c < before.len() && (c - 1) / 2 == p && c != child ==> not_before::<C>(
                inputs,
                #[trigger] before[c],
                before[child],
            ),
        forall|c: int|
            1 <= c < before.len() && (c - 1) / 2 != p ==> #[trigger] edge_holds::<C>(
                inputs,
                before,
                c,
            ),
        p > 0 ==> forall|c: int|
            1 <= c < before.len() && (c - 1) / 2 == p ==> not_before::<C>(
                inputs,
                #[trigger] before[c],
                before[(p - 1) / 2],
            ),
    ensures
        heap_comparable::<C>(inputs, after),
        forall|c: int|
            1 <= c < after.len() && (c - 1) / 2 != child ==> #[trigger] edge_holds::<C>(
                inputs,
                after,
                c,
            ),
        forall|c: int|
            1 <= c < after.len() && (c - 1) / 2 == child ==> not_before::<C>(
                inputs,
                #[trigger] after[c],
                after[(child - 1) / 2],
            ),
{
    lemma_before_one_way::<C>(inputs, before[child], before[p]);
    assert forall|i: int| 0 <= i < after.len() implies has_front(
        inputs,
        #[trigger] after[i] as int,
    ) by {
        assert(has_front(inputs, before[i] as int));
        assert(has_front(inputs, before[p] as int));
        assert(has_front(inputs, before[child] as int));
    }
    assert forall|c: int| 1 <= c < after.len() && (c - 1) / 2 != child implies #[trigger] edge_holds::<
        C,
    >(inputs, after, c) by {
        if (c - 1) / 2 == p {
            if c != child {
                assert(not_before::<C>(inputs, before[c], before[child]));
            }
        } else if c == p {
            assert(not_before::<C>(inputs, before[child], before[(p - 1) / 2]));
        } else {
            assert(edge_holds::<C>(inputs, before, c));
        }
    }
    assert forall|c: int| 1 <= c < after.len() && (c - 1) / 2 == child implies not_before::<C>(
        inputs,
        #[trigger] after[c],
        after[(child - 1) / 2],
    ) by {
        assert(edge_holds::<C>(inputs, before, c));
    }
}

impl<S: MergeSource, C: KeyComparator> KWayMerge<S> for HeapMerger<S, C> {
    closed spec fn inv(&self) -> bool {
        &&& self.base_inv()
        &&& is_heap::<C>(inputs_of(self.sources@), self.heap@)
        &&& lists_fronts(inputs_of(self.sources@), self.heap@.to_multiset())
    }

    closed spec fn inputs(&self) -> Seq<Seq<Entry>> {
        inputs_of(self.sources@)
    }

    open spec fn can_merge(inputs: Seq<Seq<Entry>>) -> bool {
        mergeable::<C>(inputs)
    }

    open spec fn merges(inputs: Seq<Seq<Entry>>, out: Seq<Entry>) -> bool {
        is_merge::<C>(inputs, out)
    }

    fn new(sources: Vec<S>) -> (r: Self) {
        let n: usize = sources.len();
        let mut merger = HeapMerger {
            sources,
            heap: Vec::with_capacity(n),
            _comparator: PhantomData,
        };
        let ghost inputs = inputs_of(sources@);
        proof {
            broadcast use vstd::seq_lib::group_to_multiset_ensures;

            assert(merger.heap@.to_multiset() =~= Multiset::empty());
        }
        let mut i: usize = 0;
        while i < n
            invariant
                i <= n,
                n == sources@.len(),
                merger.sources@ == sources@,
                merger.base_inv(),
                inputs == inputs_of(sources@),
                is_heap::<C>(inputs, merger.heap@),
                forall|s: usize| #[trigger]
                    merger.heap@.to_multiset().count(s) == if s < i && has_front(
                        inputs,
                        s as int,
                    ) {
                        1nat
                    } else {
                        0nat
                    },
            decreases n - i,
        {
            if merger.sources[i].peek().is_some() {
                merger.push(i);
            }
            i = i + 1;
        }
        merger
    }

    fn run<V: EntryVisitor>(&mut self, f: &mut V) {
        let ghost first = self.inputs();
        let ghost mut out = Seq::<Entry>::empty();
        proof {
            lemma_nothing_merged::<C>(first);
        }
        let mut running = true;
        while running
            invariant
                self.inv(),
                f.ready(),
                first == old(self).inputs(),
                merged_so_far::<C>(first, out, self.inputs()),
                f.state() == visit_all::<V>(old(f).state(), out),
                !running ==> forall|i: int| !#[trigger] has_front(self.inputs(), i),
            decreases running as int, left_in(self.inputs()),
        {
            let ghost now = self.inputs();
            let ghost members = self.heap@.to_multiset();
            match self.pop() {
                None => {
                    running = false;
                },
                Some(source) => {
                    if let Some((key, value)) = self.sources[source].peek() {
                        f.visit(key, value);
                    }
                    let ghost heap = self.heap@;
                    self.sources[source].advance();
                    let ghost next = inputs_of(self.sources@);
                    proof {
                        assert(next =~= without_front(now, source as int));
                        lemma_step_mergeable::<C>(now, source as int);
                        lemma_merged_so_far::<C>(first, out, now, source as int);
                        assert(out.push(now[source as int][0]).drop_last() =~= out);
                        out = out.push(now[source as int][0]);
                        lemma_left_in(now, source as int);
                        lemma_rest_of_heap::<C>(now, next, heap, members, source);
                    }
                    if self.sources[source].peek().is_some() {
                        self.push(source);
                    }
                },
            }
        }
        proof {
            lemma_all_merged::<C>(first, out, self.inputs());
        }
        assert(Self::merges(first, out));
    }
}

/// The other members of a heap do not notice that `source` has moved on.
proof fn lemma_rest_of_heap<C: KeyComparator>(
    now: Seq<Seq<Entry>>,
    next: Seq<Seq<Entry>>,
    heap: Seq<usize>,
    members: Multiset<usize>,
    source: usize,
)
    requires
        has_front(now, source as int),
        next == without_front(now, source as int),
        lists_fronts(now, members),
        heap.to_multiset() == members.remove(source),
        is_heap::<C>(now, heap),
    ensures
        is_heap::<C>(next, heap),
        forall|s: usize| #[trigger]
            heap.to_multiset().count(s) == if s != source && has_front(next, s as int) {
                1nat
            } else {
                0nat
            },
{
    broadcast use vstd::seq_lib::group_to_multiset_ensures;

    assert forall|s: usize| #[trigger]
        heap.to_multiset().count(s) == if s != source && has_front(next, s as int) {
            1nat
        } else {
            0nat
        } by {
        assert(members.count(s) == if has_front(now, s as int) {
            1nat
        } else {
            0nat
        });
        assert(members.count(source) == 1);
    }
    assert forall|c: int| 1 <= c < heap.len() implies #[trigger] edge_holds::<C>(
        next,
        heap,
        c,
    ) by {
        assert(edge_holds::<C>(now, heap, c));
        assert(heap.contains(heap[c]) && heap.contains(heap[(c - 1) / 2]));
        assert(heap.to_multiset().count(heap[c]) > 0);
        assert(heap.to_multiset().count(heap[(c - 1) / 2]) > 0);
    }
}

} // verus!
