//! Whether sources meet what a compaction asks of them.

use crate::compaction::compactable;
use crate::compaction::shard::{contents_of, largest, shardable};
use crate::entry::{lemma_total_weight_prefix, total_weight};
use crate::format::internal_key::is_internal_key;
use crate::merge::cmp::InternalKeyComparator;
use crate::merge::merged::{all_comparable, at_most_one_input, has_front};
use crate::merge::merger::{inputs_of, sources_inv};
use crate::merge::source::{all_internal, user_keys_ascend, ArenaSource, MergeSource};
use vstd::prelude::*;

verus! {

/// Whether every key that is still to come is an internal key.
fn all_keys_internal(sources: &Vec<ArenaSource>) -> (r: bool)
    requires
        sources_inv(sources@),
    ensures
        r == all_comparable::<InternalKeyComparator>(inputs_of(sources@)),
{
    let ghost inputs = inputs_of(sources@);
    let mut i: usize = 0;
    while i < sources.len()
        invariant
            i <= sources@.len(),
            sources_inv(sources@),
            inputs == inputs_of(sources@),
            forall|j: int| 0 <= j < i ==> all_internal(#[trigger] inputs[j]),
        decreases sources@.len() - i,
    {
        assert(sources@[i as int].inv());
        if !sources[i].has_internal_keys() {
            assert(!all_internal(inputs[i as int]));
            return false;
        }
        i = i + 1;
    }
    assert forall|a: int, k: int| 0 <= a < inputs.len() && 0 <= k < inputs[a].len() implies
        is_internal_key(#[trigger] inputs[a][k].0) by {
        assert(all_internal(inputs[a]));
    }
    true
}

/// Whether at most one source has entries left.
fn one_source_at_most(sources: &Vec<ArenaSource>) -> (r: bool)
    requires
        sources_inv(sources@),
    ensures
        r == at_most_one_input(inputs_of(sources@)),
{
    let ghost inputs = inputs_of(sources@);
    let mut found: Option<usize> = None;
    let mut i: usize = 0;
    while i < sources.len()
        invariant
            i <= sources@.len(),
            sources_inv(sources@),
            inputs == inputs_of(sources@),
            match found {
                Some(f) => f < i && has_front(inputs, f as int),
                None => true,
            },
            forall|j: int|
                0 <= j < i && #[trigger] has_front(inputs, j) ==> found == Some(j as usize),
        decreases sources@.len() - i,
    {
        assert(sources@[i as int].inv());
        if sources[i].len() > 0 {
            assert(has_front(inputs, i as int));
            match found {
                Some(f) => {
                    assert(has_front(inputs, f as int) && f != i);
                    return false;
                },
                None => {
                    found = Some(i);
                },
            }
        }
        i = i + 1;
    }
    true
}

/// Whether what is still to come weighs at most so much.
fn weighs_at_most(sources: &Vec<ArenaSource>, limit: usize) -> (r: bool)
    requires
        sources_inv(sources@),
    ensures
        r == (total_weight(inputs_of(sources@)) <= limit),
{
    let ghost inputs = inputs_of(sources@);
    let mut left: usize = limit;
    let mut i: usize = 0;
    assert(inputs.take(0) =~= Seq::empty());
    while i < sources.len()
        invariant
            i <= sources@.len(),
            sources_inv(sources@),
            inputs == inputs_of(sources@),
            left + total_weight(inputs.take(i as int)) == limit,
        decreases sources@.len() - i,
    {
        assert(sources@[i as int].inv());
        proof {
            assert(inputs.take(i + 1).drop_last() =~= inputs.take(i as int));
            lemma_total_weight_prefix(inputs, i + 1);
        }
        match sources[i].room_left(left) {
            None => {
                return false;
            },
            Some(rest) => {
                left = rest;
            },
        }
        i = i + 1;
    }
    assert(inputs.take(i as int) =~= inputs);
    true
}

/// Whether sources can be compacted.
pub fn can_compact(sources: &Vec<ArenaSource>) -> (r: bool)
    requires
        sources_inv(sources@),
    ensures
        r == compactable(inputs_of(sources@)),
{
    let mergeable = all_keys_internal(sources) || one_source_at_most(sources);
    mergeable && sources.len() <= usize::MAX / 4 && weighs_at_most(sources, usize::MAX - 8)
}

/// Windows on all entries of each source.
fn unwindowed(sources: &Vec<ArenaSource>) -> (r: Vec<ArenaSource>)
    requires
        sources_inv(sources@),
    ensures
        sources_inv(r@),
        inputs_of(r@) == contents_of(sources@),
        contents_of(r@) == contents_of(sources@),
{
    let mut whole: Vec<ArenaSource> = Vec::with_capacity(sources.len());
    let mut i: usize = 0;
    while i < sources.len()
        invariant
            i <= sources@.len(),
            sources_inv(sources@),
            whole@.len() == i,
            forall|j: int|
                0 <= j < i ==> {
                    &&& (#[trigger] whole@[j]).inv()
                    &&& whole@[j].remaining() == sources@[j].entries()
                    &&& whole@[j].entries() == sources@[j].entries()
                },
        decreases sources@.len() - i,
    {
        let source = &sources[i];
        assert(source.inv());
        let window = source.shard(0, source.total_len());
        assert(source.entries().subrange(0, source.entries().len() as int) =~= source.entries());
        whole.push(window);
        i = i + 1;
    }
    assert(inputs_of(whole@) =~= contents_of(sources@));
    assert(contents_of(whole@) =~= contents_of(sources@));
    whole
}

/// Whether sources can be compacted in so many shards.
#[verifier::rlimit(50)]
pub fn can_shard(sources: &Vec<ArenaSource>, num_shards: usize) -> (r: bool)
    requires
        sources_inv(sources@),
    ensures
        r == shardable(sources@, num_shards),
{
    if num_shards <= 1 || sources.len() == 0 {
        return can_compact(sources);
    }
    let whole = unwindowed(sources);
    let ghost inputs = contents_of(sources@);
    if !all_keys_internal(&whole) {
        proof {
            let (a, k) = choose|a: int, k: int|
                0 <= a < inputs.len() && 0 <= k < inputs[a].len()
                    && !is_internal_key(#[trigger] inputs[a][k].0);
            assert(!all_internal(inputs[a]));
        }
        return false;
    }
    assert(inputs.len() == whole@.len());
    let mut best: usize = 0;
    let mut i: usize = 0;
    while i < whole.len()
        invariant
            i <= whole@.len(),
            whole@.len() > 0,
            num_shards > 1,
            sources@.len() > 0,
            inputs == contents_of(sources@),
            sources_inv(whole@),
            inputs == contents_of(whole@),
            inputs == inputs_of(whole@),
            all_comparable::<InternalKeyComparator>(inputs),
            forall|j: int|
                0 <= j < i ==> all_internal(#[trigger] inputs[j]) && user_keys_ascend(inputs[j]),
            i == 0 ==> best == 0,
            i > 0 ==> best < i && best == largest(inputs.take(i as int)),
        decreases whole@.len() - i,
    {
        assert(whole@[i as int].inv() && whole@[best as int].inv());
        assert forall|k: int| 0 <= k < inputs[i as int].len() implies
            is_internal_key(#[trigger] inputs[i as int][k].0) by {
        }
        if !whole[i].has_sorted_user_keys() {
            assert(!user_keys_ascend(inputs[i as int]));
            return false;
        }
        assert(inputs.take(i + 1).drop_last() =~= inputs.take(i as int));
        if whole[i].total_len() >= whole[best].total_len() {
            best = i;
        }
        i = i + 1;
    }
    assert(inputs.take(i as int) =~= inputs);
    assert(whole@[best as int].inv());
    let longest: u128 = whole[best].total_len() as u128;
    let steps: u128 = (num_shards - 1) as u128;
    assert(longest * steps <= usize::MAX * usize::MAX) by (nonlinear_arith)
        requires
            longest <= usize::MAX,
            steps <= usize::MAX,
    ;
    whole.len() <= usize::MAX / 4 && weighs_at_most(&whole, usize::MAX - 8) && longest * steps
        <= usize::MAX as u128
}

} // verus!
