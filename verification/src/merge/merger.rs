//! Merging sorted inputs, by a tournament tree or by a heap.
//!
//! Both take any `MergeSource` and any `KeyComparator`. Where the comparator
//! offers a numeric prefix, comparisons look at the prefixes first.

use crate::entry::{visit_all, Entry, EntryVisitor};
use crate::merge::cmp::{InternalKeyComparator, KeyComparator};
use crate::merge::merged::{
    all_comparable, has_front, is_merge, is_smallest, left_in, lemma_left_in,
    lemma_step_mergeable, mergeable, without_front,
};
use crate::merge::source::MergeSource;
use crate::merge::tree::{
    beats, doubled_up_to, is_above, leaves_for, lefts_after, lemma_above_bound,
    lemma_above_parent, lemma_off_path, lemma_on_path, lemma_overall_winner, lemma_tournament,
    lemma_two_players, lemma_winner_below, loser_at, tournament, tournament_merge, winner_at,
};
use std::cmp::Ordering;
use std::marker::PhantomData;
use vstd::prelude::*;

verus! {

/// What is still to come from each source.
pub open spec fn inputs_of<S: MergeSource>(sources: Seq<S>) -> Seq<Seq<Entry>> {
    Seq::new(sources.len(), |i: int| sources[i].remaining())
}

/// Whether the invariant of every source holds.
pub open spec fn sources_inv<S: MergeSource>(sources: Seq<S>) -> bool {
    forall|i: int| 0 <= i < sources.len() ==> (#[trigger] sources[i]).inv()
}

/// Runs a merge to its end.
pub trait KWayMerge<S: MergeSource>: Sized {
    /// What holds between calls.
    spec fn inv(&self) -> bool;

    /// What is still to come from each source.
    spec fn inputs(&self) -> Seq<Seq<Entry>>;

    /// Whether the inputs can be merged.
    spec fn can_merge(inputs: Seq<Seq<Entry>>) -> bool;

    /// Whether `out` is a merge of the inputs.
    spec fn merges(inputs: Seq<Seq<Entry>>, out: Seq<Entry>) -> bool;

    fn new(sources: Vec<S>) -> (r: Self)
        requires
            sources_inv(sources@),
            Self::can_merge(inputs_of(sources@)),
            4 * sources@.len() <= usize::MAX,
        ensures
            r.inv(),
            r.inputs() == inputs_of(sources@),
    ;

    /// Visits every entry in order.
    fn run<V: EntryVisitor>(&mut self, f: &mut V)
        requires
            old(self).inv(),
            old(f).ready(),
        ensures
            final(self).inv(),
            forall|i: int| !#[trigger] has_front(final(self).inputs(), i),
            final(f).ready(),
            exists|out: Seq<Entry>| #[trigger]
                Self::merges(old(self).inputs(), out) && final(f).state() == visit_all::<V>(
                    old(f).state(),
                    out,
                ),
    ;
}

/// Compares two keys, by their prefixes first where those may be used.
pub fn compare_with_prefix<C: KeyComparator>(a: &[u8], b: &[u8]) -> (r: Ordering)
    requires
        C::comparable(a@),
        C::comparable(b@),
    ensures
        r == Ordering::Less <==> C::before(a@, b@),
        r == Ordering::Greater <==> C::before(b@, a@),
        r == Ordering::Equal <==> !C::before(a@, b@) && !C::before(b@, a@),
{
    if C::HAS_SORT_PREFIX {
        let x: u64 = C::sort_prefix(a);
        let y: u64 = C::sort_prefix(b);
        if x < y {
            proof {
                C::prefix_law(a@, b@);
                C::order_laws(a@, b@, a@);
            }
            return Ordering::Less;
        }
        if y < x {
            proof {
                C::prefix_law(b@, a@);
                C::order_laws(b@, a@, b@);
            }
            return Ordering::Greater;
        }
    }
    C::compare(a, b)
}

/// Whether one key comes before another.
pub fn comes_before<C: KeyComparator>(a: &[u8], b: &[u8]) -> (r: bool)
    requires
        C::comparable(a@),
        C::comparable(b@),
    ensures
        r == C::before(a@, b@),
{
    match compare_with_prefix::<C>(a, b) {
        Ordering::Less => true,
        _ => false,
    }
}

/// Merging one entry, then the rest, is merging all.
proof fn lemma_merge_step<C: KeyComparator>(inputs: Seq<Seq<Entry>>, i: int, rest: Seq<Entry>)
    requires
        is_smallest::<C>(inputs, i),
        is_merge::<C>(without_front(inputs, i), rest),
    ensures
        is_merge::<C>(inputs, seq![inputs[i][0]] + rest),
{
    let out = seq![inputs[i][0]] + rest;
    assert(out.drop_first() =~= rest);
    assert(out[0] == inputs[i][0]);
}

/// What has been put out, followed by any merge of what is left, is a merge
/// of what there was at first.
pub open spec fn merged_so_far<C: KeyComparator>(
    first: Seq<Seq<Entry>>,
    out: Seq<Entry>,
    now: Seq<Seq<Entry>>,
) -> bool {
    forall|rest: Seq<Entry>| #[trigger]
        is_merge::<C>(now, rest) ==> is_merge::<C>(first, out + rest)
}

/// At first nothing has been put out.
pub proof fn lemma_nothing_merged<C: KeyComparator>(first: Seq<Seq<Entry>>)
    ensures
        merged_so_far::<C>(first, Seq::empty(), first),
{
    assert forall|rest: Seq<Entry>| #[trigger] is_merge::<C>(first, rest) implies is_merge::<C>(
        first,
        Seq::<Entry>::empty() + rest,
    ) by {
        assert(Seq::<Entry>::empty() + rest =~= rest);
    }
}

/// When nothing is left, what has been put out is a merge.
pub proof fn lemma_all_merged<C: KeyComparator>(
    first: Seq<Seq<Entry>>,
    out: Seq<Entry>,
    now: Seq<Seq<Entry>>,
)
    requires
        merged_so_far::<C>(first, out, now),
        forall|i: int| !#[trigger] has_front(now, i),
    ensures
        is_merge::<C>(first, out),
{
    assert(is_merge::<C>(now, Seq::empty()));
    assert(out + Seq::<Entry>::empty() =~= out);
}

/// Putting out the smallest front is progress.
pub proof fn lemma_merged_so_far<C: KeyComparator>(
    first: Seq<Seq<Entry>>,
    out: Seq<Entry>,
    now: Seq<Seq<Entry>>,
    i: int,
)
    requires
        merged_so_far::<C>(first, out, now),
        is_smallest::<C>(now, i),
    ensures
        merged_so_far::<C>(first, out.push(now[i][0]), without_front(now, i)),
{
    assert forall|rest: Seq<Entry>| #[trigger]
        is_merge::<C>(without_front(now, i), rest) implies is_merge::<C>(
        first,
        out.push(now[i][0]) + rest,
    ) by {
        lemma_merge_step::<C>(now, i, rest);
        assert(out + (seq![now[i][0]] + rest) =~= out.push(now[i][0]) + rest);
    }
}

/// Merges by a tournament in which every match is remembered by its loser.
/// When the winner moves on, only the matches on its way are played again.
pub struct LoserTreeMerger<S: MergeSource, C: KeyComparator = InternalKeyComparator> {
    sources: Vec<S>,
    /// The loser of each match, by node.
    tree: Vec<usize>,
    winner: usize,
    /// The number of leaves. Those without a source always lose.
    k_padded: usize,
    /// The nodes at which the left one wins ties.
    lefts: Ghost<Set<int>>,
    _comparator: PhantomData<C>,
}

impl<S: MergeSource, C: KeyComparator> LoserTreeMerger<S, C> {
    /// What holds whatever has been played.
    spec fn base_inv(&self) -> bool {
        &&& sources_inv(self.sources@)
        &&& mergeable::<C>(inputs_of(self.sources@))
        &&& self.sources@.len() <= self.k_padded
        &&& 1 <= self.k_padded
        &&& 2 * self.k_padded <= usize::MAX
        &&& self.tree@.len() == self.k_padded
    }

    /// Whether every match has been played.
    spec fn all_played(&self) -> bool {
        let inputs = inputs_of(self.sources@);
        let k = self.k_padded as int;
        &&& self.winner == winner_at::<C>(inputs, self.lefts@, k, 1)
        &&& forall|m: int|
            1 <= m < k ==> #[trigger] self.tree@[m] == loser_at::<C>(inputs, self.lefts@, k, m)
    }

    /// The entry at the front of a leaf; none where it has no source.
    fn peek_at(&self, leaf: usize) -> (r: Option<(&[u8], &[u8])>)
        requires
            self.base_inv(),
        ensures
            match r {
                Some((key, value)) => {
                    &&& has_front(inputs_of(self.sources@), leaf as int)
                    &&& inputs_of(self.sources@)[leaf as int][0] == (key@, value@)
                },
                None => !has_front(inputs_of(self.sources@), leaf as int),
            },
    {
        if leaf >= self.sources.len() {
            None
        } else {
            self.sources[leaf].peek()
        }
    }

    /// Plays one match.
    fn less(&self, a: usize, b: usize) -> (r: bool)
        requires
            self.base_inv(),
            a != b,
        ensures
            r == beats::<C>(inputs_of(self.sources@), a as int, b as int),
    {
        let ghost inputs = inputs_of(self.sources@);
        match (self.peek_at(a), self.peek_at(b)) {
            (Some((ka, _)), Some((kb, _))) => {
                proof {
                    assert(has_front(inputs, a as int) && has_front(inputs, b as int));
                    assert(all_comparable::<C>(inputs));
                    assert(C::comparable(inputs[a as int][0].0));
                    assert(C::comparable(inputs[b as int][0].0));
                }
                comes_before::<C>(ka, kb)
            },
            (Some(_), None) => true,
            (None, _) => false,
        }
    }

    /// Plays all matches, those next to the leaves first. The right one wins
    /// ties.
    fn build(&mut self)
        requires
            old(self).base_inv(),
            old(self).lefts@ == Set::<int>::empty(),
        ensures
            final(self).base_inv(),
            final(self).sources@ == old(self).sources@,
            final(self).k_padded == old(self).k_padded,
            final(self).lefts@ == old(self).lefts@,
            final(self).all_played(),
    {
        let k: usize = self.k_padded;
        let mut won: Vec<usize> = Vec::with_capacity(2 * k);
        let mut p: usize = 0;
        while p < 2 * k
            invariant
                p <= 2 * k <= usize::MAX,
                won@.len() == p,
                forall|q: int| k <= q < p ==> #[trigger] won@[q] == q - k,
            decreases 2 * k - p,
        {
            won.push(if p < k {
                0
            } else {
                p - k
            });
            p = p + 1;
        }
        let ghost inputs = inputs_of(self.sources@);
        let ghost lefts = self.lefts@;
        let mut node: usize = k;
        while node > 1
            invariant
                1 <= node <= k,
                k == self.k_padded,
                self.base_inv(),
                self.sources@ == old(self).sources@,
                self.lefts@ == old(self).lefts@,
                lefts == self.lefts@,
                lefts == Set::<int>::empty(),
                inputs == inputs_of(self.sources@),
                won@.len() == 2 * k,
                forall|m: int|
                    node <= m < 2 * k ==> #[trigger] won@[m] == winner_at::<C>(
                        inputs,
                        lefts,
                        k as int,
                        m,
                    ),
                forall|m: int|
                    node <= m < k ==> #[trigger] self.tree@[m] == loser_at::<C>(
                        inputs,
                        lefts,
                        k as int,
                        m,
                    ),
            decreases node,
        {
            node = node - 1;
            let left: usize = won[2 * node];
            let right: usize = won[2 * node + 1];
            proof {
                lemma_two_players::<C>(inputs, lefts, k as int, node as int);
            }
            if self.less(left, right) {
                won[node] = left;
                self.tree[node] = right;
            } else {
                won[node] = right;
                self.tree[node] = left;
            }
        }
        self.winner = won[1];
    }

    /// Plays the matches on the way of `leaf` again. It was the winner, and
    /// only its front has changed. The loser that is stored wins ties.
    fn replay_from_leaf(&mut self, leaf: usize, before: Ghost<Seq<Seq<Entry>>>)
        requires
            old(self).base_inv(),
            leaf == winner_at::<C>(before@, old(self).lefts@, old(self).k_padded as int, 1),
            forall|m: int|
                1 <= m < old(self).k_padded ==> #[trigger] old(self).tree@[m] == loser_at::<C>(
                    before@,
                    old(self).lefts@,
                    old(self).k_padded as int,
                    m,
                ),
            before@.len() == old(self).sources@.len(),
            forall|j: int|
                0 <= j < before@.len() && j != leaf ==> before@[j] == #[trigger] inputs_of(
                    old(self).sources@,
                )[j],
        ensures
            final(self).base_inv(),
            final(self).sources@ == old(self).sources@,
            final(self).k_padded == old(self).k_padded,
            final(self).lefts@ == lefts_after(
                old(self).lefts@,
                old(self).k_padded as int,
                leaf as int,
            ),
            final(self).all_played(),
    {
        let k: usize = self.k_padded;
        let ghost inputs = inputs_of(self.sources@);
        let ghost lefts = self.lefts@;
        let ghost now = lefts_after(lefts, k as int, leaf as int);
        let ghost start = (k + leaf) as int;
        let ghost mut child = start;
        let mut contender: usize = leaf;
        proof {
            lemma_winner_below::<C>(before@, lefts, k as int, 1);
            assert(is_above(start, start));
        }
        let mut node: usize = (leaf + k) / 2;
        assert forall|m: int| 1 <= m < k && !is_above(m, node as int) implies #[trigger] self.tree@[m]
            == loser_at::<C>(inputs, now, k as int, m) by {
            lemma_off_path::<C>(before@, inputs, lefts, k as int, leaf as int, m);
        }
        while node >= 1
            invariant
                k == self.k_padded,
                self.base_inv(),
                self.sources@ == old(self).sources@,
                inputs == inputs_of(self.sources@),
                lefts == old(self).lefts@,
                leaf == winner_at::<C>(before@, lefts, k as int, 1),
                before@.len() == inputs.len(),
                forall|j: int|
                    0 <= j < before@.len() && j != leaf ==> before@[j] == #[trigger] inputs[j],
                now == lefts_after(lefts, k as int, leaf as int),
                start == k + leaf,
                node == child / 2,
                1 <= child < 2 * k,
                is_above(child, start),
                contender == winner_at::<C>(inputs, now, k as int, child),
                forall|m: int|
                    1 <= m < k && is_above(m, node as int) ==> #[trigger] self.tree@[m]
                        == loser_at::<C>(before@, lefts, k as int, m),
                forall|m: int|
                    1 <= m < k && !is_above(m, node as int) ==> #[trigger] self.tree@[m]
                        == loser_at::<C>(inputs, now, k as int, m),
            decreases node,
        {
            let ghost n = node as int;
            let ghost lost = self.tree@;
            proof {
                lemma_above_parent(child, start);
                lemma_on_path::<C>(before@, inputs, lefts, k as int, child);
                assert(is_above(n, n));
            }
            let loser_here: usize = self.tree[node];
            if !self.less(contender, loser_here) {
                self.tree[node] = contender;
                contender = loser_here;
            }
            proof {
                assert forall|m: int| 1 <= m < k && is_above(m, n / 2) implies #[trigger] self.tree@[m]
                    == loser_at::<C>(before@, lefts, k as int, m) by {
                    lemma_above_bound(m, n / 2);
                    assert(is_above(m, n));
                    assert(self.tree@[m] == lost[m]);
                }
                assert forall|m: int| 1 <= m < k && !is_above(m, n / 2) implies #[trigger] self.tree@[m]
                    == loser_at::<C>(inputs, now, k as int, m) by {
                    if m != n {
                        assert(!is_above(m, n));
                        assert(self.tree@[m] == lost[m]);
                    }
                }
                child = n;
            }
            node = node / 2;
        }
        self.winner = contender;
        self.lefts = Ghost(now);
        assert(child == 1);
    }
}

impl<S: MergeSource, C: KeyComparator> LoserTreeMerger<S, C> {
    /// The source whose front comes next.
    pub closed spec fn next_source(&self) -> int {
        self.winner as int
    }

    /// The entries that are still to come, in order.
    pub closed spec fn order(&self) -> Seq<Entry> {
        tournament::<C>(inputs_of(self.sources@), self.lefts@, self.k_padded as int)
    }

    /// What is still to come is a merge of what is left.
    pub proof fn lemma_order(&self)
        requires
            self.inv(),
        ensures
            is_merge::<C>(self.inputs(), self.order()),
    {
        lemma_tournament::<C>(self.inputs(), self.lefts@, self.k_padded as int);
    }

    /// The entry that comes next.
    pub fn front(&self) -> (r: Option<(&[u8], &[u8])>)
        requires
            self.inv(),
        ensures
            match r {
                Some((key, value)) => {
                    &&& is_smallest::<C>(self.inputs(), self.next_source())
                    &&& self.inputs()[self.next_source()][0] == (key@, value@)
                    &&& self.order().len() > 0
                    &&& self.order()[0] == (key@, value@)
                },
                None => {
                    &&& forall|i: int| !#[trigger] has_front(self.inputs(), i)
                    &&& self.order() == Seq::<Entry>::empty()
                },
            },
    {
        proof {
            lemma_overall_winner::<C>(self.inputs(), self.lefts@, self.k_padded as int);
        }
        self.peek_at(self.winner)
    }

    /// Drops the entry that comes next.
    pub fn step(&mut self)
        requires
            old(self).inv(),
            has_front(old(self).inputs(), old(self).next_source()),
        ensures
            final(self).inv(),
            final(self).inputs() == without_front(
                old(self).inputs(),
                old(self).next_source(),
            ),
            final(self).order() == old(self).order().drop_first(),
    {
        let winner: usize = self.winner;
        let ghost now = inputs_of(self.sources@);
        let ghost order = self.order();
        self.sources[winner].advance();
        proof {
            assert(inputs_of(self.sources@) =~= without_front(now, winner as int));
            lemma_step_mergeable::<C>(now, winner as int);
        }
        self.replay_from_leaf(winner, Ghost(now));
        assert(self.order() =~= order.drop_first());
    }
}

impl<S: MergeSource, C: KeyComparator> KWayMerge<S> for LoserTreeMerger<S, C> {
    closed spec fn inv(&self) -> bool {
        &&& self.base_inv()
        &&& self.all_played()
    }

    closed spec fn inputs(&self) -> Seq<Seq<Entry>> {
        inputs_of(self.sources@)
    }

    open spec fn can_merge(inputs: Seq<Seq<Entry>>) -> bool {
        mergeable::<C>(inputs)
    }

    open spec fn merges(inputs: Seq<Seq<Entry>>, out: Seq<Entry>) -> bool {
        is_merge::<C>(inputs, out)
    }

    fn new(sources: Vec<S>) -> (r: Self)
        ensures
            r.order() == tournament_merge::<C>(inputs_of(sources@)),
    {
        let n: usize = sources.len();
        let mut k_padded: usize = 1;
        let mut tree: Vec<usize> = Vec::new();
        tree.push(0);
        while k_padded < n
            invariant
                1 <= k_padded,
                k_padded == 1 || k_padded < 2 * n,
                4 * n <= usize::MAX,
                tree@.len() == k_padded,
                doubled_up_to(k_padded as int, n as int) == leaves_for(n as int),
            decreases 2 * n - k_padded,
        {
            let target: usize = 2 * k_padded;
            while k_padded < target
                invariant
                    k_padded <= target,
                    tree@.len() == k_padded,
                decreases target - k_padded,
            {
                tree.push(0);
                k_padded = k_padded + 1;
            }
        }
        let mut merger = LoserTreeMerger {
            sources,
            tree,
            winner: 0,
            k_padded,
            lefts: Ghost(Set::empty()),
            _comparator: PhantomData,
        };
        merger.build();
        merger
    }

    fn run<V: EntryVisitor>(&mut self, f: &mut V)
        ensures
            final(f).state() == visit_all::<V>(old(f).state(), old(self).order()),
    {
        let ghost order = self.order();
        let ghost mut out = Seq::<Entry>::empty();
        proof {
            self.lemma_order();
            assert(out + order =~= order);
        }
        let mut running = true;
        while running
            invariant
                self.inv(),
                f.ready(),
                order == old(self).order(),
                out + self.order() == order,
                f.state() == visit_all::<V>(old(f).state(), out),
                !running ==> self.order() == Seq::<Entry>::empty() && forall|i: int|
                    !#[trigger] has_front(self.inputs(), i),
            decreases running as int, left_in(self.inputs()),
        {
            let ghost now = self.inputs();
            let ghost source = self.next_source();
            let ghost rest = self.order();
            match self.front() {
                None => {
                    running = false;
                },
                Some((key, value)) => {
                    f.visit(key, value);
                    self.step();
                    proof {
                        assert(out.push(rest[0]) + rest.drop_first() =~= out + rest);
                        assert(out.push(rest[0]).drop_last() =~= out);
                        out = out.push(rest[0]);
                        lemma_left_in(now, source);
                    }
                },
            }
        }
        assert(out =~= order);
        assert(Self::merges(old(self).inputs(), order));
    }
}

} // verus!
