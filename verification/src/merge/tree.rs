//! Tournament trees over an array: the children of node `n` are `2 * n` and
//! `2 * n + 1`, the root is 1, and with `k` leaves the leaves are the nodes
//! from `k` up to `2 * k`.

use crate::entry::Entry;
use crate::merge::cmp::KeyComparator;
use crate::merge::merged::{
    front_key, has_front, is_merge, is_smallest, left_in, lemma_left_in, lemma_step_mergeable,
    mergeable, without_front,
};
use vstd::prelude::*;

verus! {

/// Whether `node` is on the way from `p` to the root, `p` counted.
pub open spec fn is_above(node: int, p: int) -> bool
    decreases p,
{
    if node < 1 || p < node {
        false
    } else if p == node {
        true
    } else {
        is_above(node, p / 2)
    }
}

pub proof fn lemma_above_root(p: int)
    requires
        p >= 1,
    ensures
        is_above(1, p),
    decreases p,
{
    if p > 1 {
        lemma_above_root(p / 2);
    }
}

pub proof fn lemma_above_parent(c: int, p: int)
    requires
        c >= 2,
        is_above(c, p),
    ensures
        is_above(c / 2, p),
    decreases p,
{
    if p == c {
        assert(is_above(c / 2, c / 2));
    } else {
        lemma_above_parent(c, p / 2);
    }
}

/// Only one of two siblings is on the way from `p` to the root.
pub proof fn lemma_above_sibling(c: int, d: int, p: int)
    requires
        c >= 2,
        d >= 2,
        c / 2 == d / 2,
        is_above(c, p),
        is_above(d, p),
    ensures
        c == d,
    decreases p,
{
    if p != c && p != d {
        lemma_above_sibling(c, d, p / 2);
    } else if p != d {
        lemma_above_bound(d, p / 2);
    } else if p != c {
        lemma_above_bound(c, p / 2);
    }
}

/// Whether the front of source `a` goes before the front of source `b`. A
/// source without a front always loses.
pub open spec fn beats<C: KeyComparator>(inputs: Seq<Seq<Entry>>, a: int, b: int) -> bool {
    has_front(inputs, a) && (!has_front(inputs, b) || C::before(
        front_key(inputs, a),
        front_key(inputs, b),
    ))
}

/// Not to beat is transitive.
pub proof fn lemma_not_beats<C: KeyComparator>(inputs: Seq<Seq<Entry>>, a: int, b: int, c: int)
    requires
        mergeable::<C>(inputs),
        !beats::<C>(inputs, b, a),
        !beats::<C>(inputs, c, b),
    ensures
        !beats::<C>(inputs, c, a),
{
    if beats::<C>(inputs, c, a) {
        assert(has_front(inputs, a) && has_front(inputs, b) && has_front(inputs, c));
        if crate::merge::merged::all_comparable::<C>(inputs) {
            assert(C::comparable(inputs[a][0].0));
            assert(C::comparable(inputs[b][0].0));
            assert(C::comparable(inputs[c][0].0));
            C::order_laws(front_key(inputs, a), front_key(inputs, b), front_key(inputs, c));
        }
    }
}

/// Where both have a front, a front that beats another is not beaten by it.
pub proof fn lemma_beats_one_way<C: KeyComparator>(inputs: Seq<Seq<Entry>>, a: int, b: int)
    requires
        mergeable::<C>(inputs),
        a != b,
        beats::<C>(inputs, a, b),
    ensures
        !beats::<C>(inputs, b, a),
{
    if has_front(inputs, b) {
        if crate::merge::merged::all_comparable::<C>(inputs) {
            assert(C::comparable(inputs[a][0].0));
            assert(C::comparable(inputs[b][0].0));
            C::order_laws(front_key(inputs, a), front_key(inputs, b), front_key(inputs, a));
        }
    }
}

/// Who wins the match at a node, and who loses it: one wins from the left and
/// the other from the right. Where neither beats the other, the left one wins
/// if `left_wins_ties`, else the right one.
pub open spec fn played<C: KeyComparator>(
    inputs: Seq<Seq<Entry>>,
    left_wins_ties: bool,
    left: int,
    right: int,
) -> (int, int) {
    let left_wins = if left_wins_ties {
        !beats::<C>(inputs, right, left)
    } else {
        beats::<C>(inputs, left, right)
    };
    if left_wins {
        (left, right)
    } else {
        (right, left)
    }
}

/// The source that wins among the leaves below `node`, in a tournament of `k`
/// leaves in which the left one wins the ties at the nodes in `lefts`.
pub open spec fn winner_at<C: KeyComparator>(
    inputs: Seq<Seq<Entry>>,
    lefts: Set<int>,
    k: int,
    node: int,
) -> int
    decreases 2 * k - node,
{
    if node < 1 || node >= k {
        node - k
    } else {
        played::<C>(
            inputs,
            lefts.contains(node),
            winner_at::<C>(inputs, lefts, k, 2 * node),
            winner_at::<C>(inputs, lefts, k, 2 * node + 1),
        ).0
    }
}

/// The source that loses the match at `node`.
pub open spec fn loser_at<C: KeyComparator>(
    inputs: Seq<Seq<Entry>>,
    lefts: Set<int>,
    k: int,
    node: int,
) -> int {
    played::<C>(
        inputs,
        lefts.contains(node),
        winner_at::<C>(inputs, lefts, k, 2 * node),
        winner_at::<C>(inputs, lefts, k, 2 * node + 1),
    ).1
}

/// Where the left one wins ties once `leaf` has had its turn: at every node on
/// its way, ties now go to the side that it does not come from.
pub open spec fn lefts_after(lefts: Set<int>, k: int, leaf: int) -> Set<int> {
    Set::new(
        |n: int|
            is_above(2 * n + 1, k + leaf) || (lefts.contains(n) && !is_above(2 * n, k + leaf)),
    )
}

/// What comes out when, step by step, the front of the overall winner is taken.
pub open spec fn tournament<C: KeyComparator>(
    inputs: Seq<Seq<Entry>>,
    lefts: Set<int>,
    k: int,
) -> Seq<Entry>
    decreases left_in(inputs),
{
    let winner = winner_at::<C>(inputs, lefts, k, 1);
    if !has_front(inputs, winner) {
        Seq::empty()
    } else {
        proof {
            lemma_left_in(inputs, winner);
        }
        seq![inputs[winner][0]] + tournament::<C>(
            without_front(inputs, winner),
            lefts_after(lefts, k, winner),
            k,
        )
    }
}

/// The smallest of `k`, twice `k` and so on that is not below `n`.
pub open spec fn doubled_up_to(k: int, n: int) -> int
    decreases 2 * n - k,
{
    if k < 1 || k >= n {
        k
    } else {
        doubled_up_to(2 * k, n)
    }
}

/// How many leaves the tournament of `n` sources has: a power of two.
pub open spec fn leaves_for(n: int) -> int {
    doubled_up_to(1, n)
}

/// What a tournament makes of sorted inputs: a merge in which, between equal
/// keys, the right one goes first at first, and later the one from the side
/// that has waited longer.
pub open spec fn tournament_merge<C: KeyComparator>(inputs: Seq<Seq<Entry>>) -> Seq<Entry> {
    tournament::<C>(inputs, Set::empty(), leaves_for(inputs.len() as int))
}

/// There is a leaf for every source.
pub proof fn lemma_leaves(k: int, n: int)
    requires
        k >= 1,
    ensures
        doubled_up_to(k, n) >= n,
        doubled_up_to(k, n) >= k,
    decreases 2 * n - k,
{
    if k < n {
        lemma_leaves(2 * k, n);
    }
}

/// The winner at a node is one of the leaves below it.
pub proof fn lemma_winner_below<C: KeyComparator>(
    inputs: Seq<Seq<Entry>>,
    lefts: Set<int>,
    k: int,
    m: int,
)
    requires
        1 <= m < 2 * k,
    ensures
        0 <= winner_at::<C>(inputs, lefts, k, m) < k,
        is_above(m, k + winner_at::<C>(inputs, lefts, k, m)),
    decreases 2 * k - m,
{
    if m < k {
        lemma_winner_below::<C>(inputs, lefts, k, 2 * m);
        lemma_winner_below::<C>(inputs, lefts, k, 2 * m + 1);
        lemma_above_parent(2 * m, k + winner_at::<C>(inputs, lefts, k, 2 * m));
        lemma_above_parent(2 * m + 1, k + winner_at::<C>(inputs, lefts, k, 2 * m + 1));
    } else {
        assert(is_above(m, m));
    }
}

/// The winners at the two sides of a match are not the same.
pub proof fn lemma_two_players<C: KeyComparator>(
    inputs: Seq<Seq<Entry>>,
    lefts: Set<int>,
    k: int,
    m: int,
)
    requires
        1 <= m < k,
    ensures
        winner_at::<C>(inputs, lefts, k, 2 * m) != winner_at::<C>(inputs, lefts, k, 2 * m + 1),
{
    lemma_winner_below::<C>(inputs, lefts, k, 2 * m);
    lemma_winner_below::<C>(inputs, lefts, k, 2 * m + 1);
    let left = winner_at::<C>(inputs, lefts, k, 2 * m);
    if left == winner_at::<C>(inputs, lefts, k, 2 * m + 1) {
        lemma_above_sibling(2 * m, 2 * m + 1, k + left);
    }
}

/// The overall winner has won every match on its way.
pub proof fn lemma_winner_path<C: KeyComparator>(
    inputs: Seq<Seq<Entry>>,
    lefts: Set<int>,
    k: int,
    q: int,
)
    requires
        1 <= q < 2 * k,
        is_above(q, k + winner_at::<C>(inputs, lefts, k, 1)),
    ensures
        winner_at::<C>(inputs, lefts, k, q) == winner_at::<C>(inputs, lefts, k, 1),
    decreases q,
{
    if q > 1 {
        let m = q / 2;
        let w = winner_at::<C>(inputs, lefts, k, 1);
        lemma_above_parent(q, k + w);
        lemma_winner_path::<C>(inputs, lefts, k, m);
        let c = if w == winner_at::<C>(inputs, lefts, k, 2 * m) { 2 * m } else { 2 * m + 1 };
        assert(winner_at::<C>(inputs, lefts, k, c) == w);
        lemma_winner_below::<C>(inputs, lefts, k, c);
        lemma_above_sibling(c, q, k + w);
    }
}

/// A match off the way of a leaf goes as before when the leaf has had its turn.
pub proof fn lemma_off_path<C: KeyComparator>(
    before: Seq<Seq<Entry>>,
    after: Seq<Seq<Entry>>,
    lefts: Set<int>,
    k: int,
    leaf: int,
    m: int,
)
    requires
        before.len() == after.len(),
        forall|j: int| 0 <= j < before.len() && j != leaf ==> before[j] == #[trigger] after[j],
        0 <= leaf < k,
        1 <= m < 2 * k,
        !is_above(m, k + leaf),
    ensures
        winner_at::<C>(after, lefts_after(lefts, k, leaf), k, m) == winner_at::<C>(
            before,
            lefts,
            k,
            m,
        ),
        m < k ==> loser_at::<C>(after, lefts_after(lefts, k, leaf), k, m) == loser_at::<C>(
            before,
            lefts,
            k,
            m,
        ),
    decreases 2 * k - m,
{
    if m < k {
        if is_above(2 * m, k + leaf) {
            lemma_above_parent(2 * m, k + leaf);
        }
        if is_above(2 * m + 1, k + leaf) {
            lemma_above_parent(2 * m + 1, k + leaf);
        }
        lemma_off_path::<C>(before, after, lefts, k, leaf, 2 * m);
        lemma_off_path::<C>(before, after, lefts, k, leaf, 2 * m + 1);
        lemma_winner_below::<C>(before, lefts, k, 2 * m);
        lemma_winner_below::<C>(before, lefts, k, 2 * m + 1);
        let left = winner_at::<C>(before, lefts, k, 2 * m);
        let right = winner_at::<C>(before, lefts, k, 2 * m + 1);
        assert(has_front(before, left) == has_front(after, left));
        assert(has_front(before, right) == has_front(after, right));
        assert(lefts_after(lefts, k, leaf).contains(m) == lefts.contains(m));
    }
}

/// The match at a node on the way of a leaf that has had its turn: whoever comes
/// up on its way has to beat the winner of the other side.
pub proof fn lemma_on_path<C: KeyComparator>(
    before: Seq<Seq<Entry>>,
    after: Seq<Seq<Entry>>,
    lefts: Set<int>,
    k: int,
    child: int,
)
    requires
        before.len() == after.len(),
        2 <= child < 2 * k,
        ({
            let leaf = winner_at::<C>(before, lefts, k, 1);
            &&& is_above(child, k + leaf)
            &&& forall|j: int|
                0 <= j < before.len() && j != leaf ==> before[j] == #[trigger] after[j]
        }),
    ensures
        ({
            let leaf = winner_at::<C>(before, lefts, k, 1);
            let now = lefts_after(lefts, k, leaf);
            let contender = winner_at::<C>(after, now, k, child);
            let other = loser_at::<C>(before, lefts, k, child / 2);
            &&& contender != other
            &&& 0 <= contender < k
            &&& 0 <= other < k
            &&& winner_at::<C>(after, now, k, child / 2) == if beats::<C>(
                after,
                contender,
                other,
            ) {
                contender
            } else {
                other
            }
            &&& loser_at::<C>(after, now, k, child / 2) == if beats::<C>(after, contender, other) {
                other
            } else {
                contender
            }
        }),
{
    let leaf = winner_at::<C>(before, lefts, k, 1);
    let now = lefts_after(lefts, k, leaf);
    let n = child / 2;
    let sibling = if child == 2 * n { 2 * n + 1 } else { 2 * n };
    lemma_winner_below::<C>(before, lefts, k, 1);
    if is_above(sibling, k + leaf) {
        lemma_above_sibling(child, sibling, k + leaf);
    }
    lemma_above_parent(child, k + leaf);
    lemma_winner_path::<C>(before, lefts, k, n);
    lemma_winner_path::<C>(before, lefts, k, child);
    lemma_two_players::<C>(before, lefts, k, n);
    assert(loser_at::<C>(before, lefts, k, n) == winner_at::<C>(before, lefts, k, sibling));
    lemma_off_path::<C>(before, after, lefts, k, leaf, sibling);
    lemma_two_players::<C>(after, now, k, n);
    lemma_winner_below::<C>(after, now, k, child);
    lemma_winner_below::<C>(after, now, k, sibling);
    assert(now.contains(n) == (child != 2 * n));
}

/// No leaf below a node beats the winner there.
proof fn lemma_winner_not_beaten<C: KeyComparator>(
    inputs: Seq<Seq<Entry>>,
    lefts: Set<int>,
    k: int,
    leaf: int,
    q: int,
)
    requires
        mergeable::<C>(inputs),
        0 <= leaf < k,
        1 <= q < 2 * k,
        is_above(q, k + leaf),
    ensures
        winner_at::<C>(inputs, lefts, k, q) == leaf || !beats::<C>(
            inputs,
            leaf,
            winner_at::<C>(inputs, lefts, k, q),
        ),
    decreases 2 * k - q,
{
    if q < k {
        lemma_above_child(q, k + leaf);
        let c = if is_above(2 * q, k + leaf) { 2 * q } else { 2 * q + 1 };
        lemma_winner_not_beaten::<C>(inputs, lefts, k, leaf, c);
        lemma_two_players::<C>(inputs, lefts, k, q);
        let winner = winner_at::<C>(inputs, lefts, k, q);
        let loser = loser_at::<C>(inputs, lefts, k, q);
        if beats::<C>(inputs, winner, loser) {
            lemma_beats_one_way::<C>(inputs, winner, loser);
        }
        assert(!beats::<C>(inputs, loser, winner));
        if winner_at::<C>(inputs, lefts, k, c) == loser && loser != leaf {
            lemma_not_beats::<C>(inputs, winner, loser, leaf);
        }
    } else if q != k + leaf {
        lemma_above_child(q, k + leaf);
        if is_above(2 * q, k + leaf) {
            lemma_above_bound(2 * q, k + leaf);
        } else {
            lemma_above_bound(2 * q + 1, k + leaf);
        }
    }
}

pub proof fn lemma_above_bound(c: int, p: int)
    requires
        is_above(c, p),
    ensures
        1 <= c <= p,
{
}

/// What is above `p` is `p` or has a child above `p`.
proof fn lemma_above_child(n: int, p: int)
    requires
        is_above(n, p),
        p != n,
    ensures
        is_above(2 * n, p) || is_above(2 * n + 1, p),
    decreases p,
{
    if p / 2 == n {
        assert(p == 2 * n || p == 2 * n + 1);
    } else {
        lemma_above_child(n, p / 2);
        if is_above(2 * n, p / 2) {
            lemma_above_bound(2 * n, p / 2);
        } else {
            lemma_above_bound(2 * n + 1, p / 2);
        }
    }
}

/// The overall winner has a front that no other comes before, or there is no
/// front left.
pub proof fn lemma_overall_winner<C: KeyComparator>(
    inputs: Seq<Seq<Entry>>,
    lefts: Set<int>,
    k: int,
)
    requires
        mergeable::<C>(inputs),
        1 <= k,
        inputs.len() <= k,
    ensures
        ({
            let winner = winner_at::<C>(inputs, lefts, k, 1);
            if has_front(inputs, winner) {
                is_smallest::<C>(inputs, winner)
            } else {
                forall|j: int| !#[trigger] has_front(inputs, j)
            }
        }),
{
    let w = winner_at::<C>(inputs, lefts, k, 1);
    assert forall|j: int| j != w && #[trigger] has_front(inputs, j) implies !beats::<C>(
        inputs,
        j,
        w,
    ) by {
        lemma_above_root(k + j);
        lemma_winner_not_beaten::<C>(inputs, lefts, k, j, 1);
    }
}

/// What a tournament puts out is a merge.
pub proof fn lemma_tournament<C: KeyComparator>(
    inputs: Seq<Seq<Entry>>,
    lefts: Set<int>,
    k: int,
)
    requires
        mergeable::<C>(inputs),
        1 <= k,
        inputs.len() <= k,
    ensures
        is_merge::<C>(inputs, tournament::<C>(inputs, lefts, k)),
    decreases left_in(inputs),
{
    let winner = winner_at::<C>(inputs, lefts, k, 1);
    lemma_overall_winner::<C>(inputs, lefts, k);
    if has_front(inputs, winner) {
        let next = without_front(inputs, winner);
        let now = lefts_after(lefts, k, winner);
        lemma_left_in(inputs, winner);
        lemma_step_mergeable::<C>(inputs, winner);
        lemma_tournament::<C>(next, now, k);
        let out = tournament::<C>(inputs, lefts, k);
        assert(out.drop_first() =~= tournament::<C>(next, now, k));
    }
}

/// A tournament merges: it neither drops, adds nor changes an entry, and puts
/// out no entry before one whose key comes first.
pub proof fn lemma_tournament_merge<C: KeyComparator>(inputs: Seq<Seq<Entry>>)
    requires
        mergeable::<C>(inputs),
    ensures
        is_merge::<C>(inputs, tournament_merge::<C>(inputs)),
{
    lemma_leaves(1, inputs.len() as int);
    lemma_tournament::<C>(inputs, Set::empty(), leaves_for(inputs.len() as int));
}

/// A source that has had its turn waits: as long as its new front does not come
/// before the front of another source, it is not its turn again.
pub proof fn lemma_others_go_first<C: KeyComparator>(
    inputs: Seq<Seq<Entry>>,
    lefts: Set<int>,
    k: int,
    j: int,
)
    requires
        mergeable::<C>(inputs),
        1 <= k,
        inputs.len() <= k,
        ({
            let w = winner_at::<C>(inputs, lefts, k, 1);
            let next = without_front(inputs, w);
            &&& has_front(inputs, w)
            &&& j != w
            &&& has_front(next, j)
            &&& has_front(next, w) ==> !C::before(front_key(next, w), front_key(next, j))
        }),
    ensures
        ({
            let w = winner_at::<C>(inputs, lefts, k, 1);
            winner_at::<C>(without_front(inputs, w), lefts_after(lefts, k, w), k, 1) != w
        }),
{
    let w = winner_at::<C>(inputs, lefts, k, 1);
    let next = without_front(inputs, w);
    lemma_step_mergeable::<C>(inputs, w);
    lemma_above_root(k + w);
    lemma_above_root(k + j);
    lemma_no_second_turn::<C>(next, lefts, k, w, j, 1);
}

proof fn lemma_no_second_turn<C: KeyComparator>(
    next: Seq<Seq<Entry>>,
    lefts: Set<int>,
    k: int,
    w: int,
    j: int,
    q: int,
)
    requires
        mergeable::<C>(next),
        0 <= w < k,
        0 <= j < k,
        j != w,
        has_front(next, j),
        has_front(next, w) ==> !C::before(front_key(next, w), front_key(next, j)),
        1 <= q < 2 * k,
        is_above(q, k + w),
        is_above(q, k + j),
    ensures
        winner_at::<C>(next, lefts_after(lefts, k, w), k, q) != w,
    decreases 2 * k - q,
{
    let now = lefts_after(lefts, k, w);
    if winner_at::<C>(next, now, k, q) != w {
    } else if q == k + w || q == k + j {
        if q == k + w {
            lemma_above_leaf(k, q, k + j);
        } else {
            lemma_above_leaf(k, q, k + w);
        }
    } else {
        lemma_above_child(q, k + w);
        lemma_above_child(q, k + j);
        let c = if is_above(2 * q, k + w) { 2 * q } else { 2 * q + 1 };
        let d = if is_above(2 * q, k + j) { 2 * q } else { 2 * q + 1 };
        lemma_above_bound(c, k + w);
        assert(q < k);
        lemma_two_players::<C>(next, now, k, q);
        lemma_winner_below::<C>(next, now, k, 2 * q);
        lemma_winner_below::<C>(next, now, k, 2 * q + 1);
        let side = if winner_at::<C>(next, now, k, 2 * q) == w { 2 * q } else { 2 * q + 1 };
        lemma_above_sibling(side, c, k + w);
        if c == d {
            lemma_no_second_turn::<C>(next, lefts, k, w, j, c);
        } else {
            let x = winner_at::<C>(next, now, k, d);
            lemma_winner_not_beaten::<C>(next, now, k, j, d);
            if is_above(2 * q, k + w) && is_above(2 * q + 1, k + w) {
                lemma_above_sibling(2 * q, 2 * q + 1, k + w);
            }
            assert(now.contains(q) == (c == 2 * q + 1));
            assert(beats::<C>(next, w, x));
            if x != j {
                assert(!beats::<C>(next, j, x));
                lemma_not_beats::<C>(next, x, j, w);
            }
        }
    }
}

/// Above a leaf there is no other leaf.
proof fn lemma_above_leaf(k: int, q: int, p: int)
    requires
        k <= q < 2 * k,
        k <= p < 2 * k,
        is_above(q, p),
    ensures
        p == q,
{
    if p != q {
        lemma_above_bound(q, p / 2);
    }
}

/// How far a node is from the root.
spec fn depth(node: int) -> int
    decreases node,
{
    if node <= 1 {
        0
    } else {
        1 + depth(node / 2)
    }
}

/// All leaves are equally far from the root.
proof fn lemma_leaf_depth(k: int, n: int, p: int)
    requires
        k >= 1,
        forall|q: int| k <= q < 2 * k ==> #[trigger] depth(q) == depth(k),
        doubled_up_to(k, n) <= p < 2 * doubled_up_to(k, n),
    ensures
        depth(p) == depth(doubled_up_to(k, n)),
    decreases 2 * n - k,
{
    if k < n {
        assert forall|q: int| 2 * k <= q < 2 * (2 * k) implies #[trigger] depth(q) == depth(
            2 * k,
        ) by {
            assert(depth(q / 2) == depth(k));
            assert(depth((2 * k) / 2) == depth(k));
        }
        lemma_leaf_depth(2 * k, n, p);
    }
}

/// Nodes at one depth keep their order on the way down.
proof fn lemma_side_by_side(a: int, b: int, p: int, q: int)
    requires
        1 <= a < b,
        depth(a) == depth(b),
        depth(p) == depth(q),
        is_above(a, p),
        is_above(b, q),
    ensures
        p < q,
    decreases p,
{
    lemma_above_depth(a, p);
    lemma_above_depth(b, q);
    if p == a {
        if q != b {
            lemma_above_depth(b, q / 2);
        }
    } else if q == b {
        lemma_above_depth(a, p / 2);
    } else {
        lemma_side_by_side(a, b, p / 2, q / 2);
    }
}

proof fn lemma_above_depth(a: int, p: int)
    requires
        is_above(a, p),
    ensures
        depth(a) <= depth(p),
    decreases p,
{
    if p != a {
        lemma_above_depth(a, p / 2);
    }
}

/// At first, of several equal fronts the one of the last source goes first: every
/// source behind the first winner has a front that comes after.
pub proof fn lemma_last_goes_first<C: KeyComparator>(inputs: Seq<Seq<Entry>>, j: int)
    requires
        mergeable::<C>(inputs),
        ({
            let k = leaves_for(inputs.len() as int);
            j > winner_at::<C>(inputs, Set::empty(), k, 1)
        }),
        has_front(inputs, j),
    ensures
        ({
            let w = winner_at::<C>(inputs, Set::empty(), leaves_for(inputs.len() as int), 1);
            C::before(front_key(inputs, w), front_key(inputs, j))
        }),
{
    let n = inputs.len() as int;
    let k = leaves_for(n);
    lemma_leaves(1, n);
    lemma_above_root(k + j);
    lemma_overall_winner::<C>(inputs, Set::empty(), k);
    assert forall|p: int| k <= p < 2 * k implies #[trigger] depth(p) == depth(k) by {
        assert forall|q: int| 1 <= q < 2 implies #[trigger] depth(q) == depth(1) by {}
        lemma_leaf_depth(1, n, p);
    }
    lemma_last_wins::<C>(inputs, k, j, 1);
}

proof fn lemma_last_wins<C: KeyComparator>(inputs: Seq<Seq<Entry>>, k: int, j: int, q: int)
    requires
        mergeable::<C>(inputs),
        forall|p: int| k <= p < 2 * k ==> #[trigger] depth(p) == depth(k),
        0 <= j < k,
        1 <= q < 2 * k,
        is_above(q, k + j),
        j > winner_at::<C>(inputs, Set::empty(), k, q),
        has_front(inputs, j),
    ensures
        beats::<C>(inputs, winner_at::<C>(inputs, Set::empty(), k, q), j),
    decreases 2 * k - q,
{
    let none = Set::<int>::empty();
    if q >= k {
        lemma_above_leaf(k, q, k + j);
    } else {
        let left = winner_at::<C>(inputs, none, k, 2 * q);
        let right = winner_at::<C>(inputs, none, k, 2 * q + 1);
        let w = winner_at::<C>(inputs, none, k, q);
        lemma_winner_below::<C>(inputs, none, k, 2 * q);
        lemma_winner_below::<C>(inputs, none, k, 2 * q + 1);
        lemma_two_players::<C>(inputs, none, k, q);
        assert(k + j != q);
        lemma_above_child(q, k + j);
        assert(depth(k + j) == depth(k + left) && depth(k + j) == depth(k + right));
        if is_above(2 * q, k + j) {
            lemma_side_by_side(2 * q, 2 * q + 1, k + j, k + right);
            assert(w == left);
            lemma_last_wins::<C>(inputs, k, j, 2 * q);
        } else if w == right {
            lemma_last_wins::<C>(inputs, k, j, 2 * q + 1);
        } else {
            assert(beats::<C>(inputs, left, right));
            lemma_winner_not_beaten::<C>(inputs, none, k, j, 2 * q + 1);
            if right != j {
                if !beats::<C>(inputs, left, j) {
                    lemma_not_beats::<C>(inputs, right, j, left);
                }
            }
        }
    }
}

} // verus!
