//! Splitting a compaction into shards by user key.
//!
//! All sources are cut at the same boundary keys, so no user key has versions
//! in two shards, and the shards can be compacted independently.

use crate::compaction::strategy::BottommostStrategy;
use crate::compaction::walk::{bottommost, walk};
use crate::compaction::{compact, compactable, compacts_to, CompactionOptions};
use crate::entry::{copy_bytes, flat, lemma_weight_drop_first, total_weight, weight, Entry};
use crate::error::FormatError;
use crate::format::internal_key::{is_internal_key, user_part};
use crate::format::sst_builder::{table_bytes, written_entries, TableOptions};
use crate::merge::cmp::{bytes_before, internal_before, lemma_bytes_order, InternalKeyComparator};
use crate::merge::merged::{
    all_ascending, all_comparable, all_entries, front_key, has_front, is_merge, is_smallest,
    lemma_merge_origin, without_front,
};
use crate::merge::merger::{inputs_of, sources_inv};
use crate::merge::source::{all_internal, user_keys_ascend, ArenaSource, MergeSource};
use crate::oracle::{first_ties_agree, lemma_kept_is_unique};
use crate::round_trip::{lemma_table_round_trip, readable};
use crate::sst::table_entries;
use vstd::prelude::*;

verus! {

/// The entries of each source, also those outside its window.
pub open spec fn contents_of(sources: Seq<ArenaSource>) -> Seq<Seq<Entry>> {
    Seq::new(sources.len(), |i: int| sources[i].entries())
}

/// The last of the longest inputs.
pub open spec fn largest(inputs: Seq<Seq<Entry>>) -> int
    decreases inputs.len(),
{
    if inputs.len() <= 1 {
        0
    } else {
        let before = largest(inputs.drop_last());
        if inputs.last().len() >= inputs[before].len() {
            inputs.len() - 1
        } else {
            before
        }
    }
}

/// Which entry of the largest input, out of `n`, ends shard `i`.
pub open spec fn boundary_index(n: int, num_shards: int, i: int) -> int {
    let index = n * (i + 1) / num_shards;
    if index < n - 1 {
        index
    } else {
        n - 1
    }
}

/// The boundary keys: the largest input is cut into equal pieces.
pub open spec fn boundary_keys(inputs: Seq<Seq<Entry>>, num_shards: int) -> Seq<Seq<u8>> {
    let entries = inputs[largest(inputs)];
    if entries.len() == 0 || num_shards < 1 {
        Seq::empty()
    } else {
        Seq::new(
            (num_shards - 1) as nat,
            |i: int| entries[boundary_index(entries.len() as int, num_shards, i)].0,
        )
    }
}

/// The byte strings that a list of owned ones holds.
pub open spec fn keys_of(keys: Seq<Vec<u8>>) -> Seq<Seq<u8>> {
    Seq::new(keys.len(), |i: int| keys[i]@)
}

proof fn lemma_largest(inputs: Seq<Seq<Entry>>)
    requires
        inputs.len() > 0,
    ensures
        0 <= largest(inputs) < inputs.len(),
    decreases inputs.len(),
{
    if inputs.len() > 1 {
        lemma_largest(inputs.drop_last());
    }
}

proof fn lemma_boundary_index(n: int, num_shards: int, i: int)
    requires
        n > 0,
        0 <= i < num_shards,
    ensures
        0 <= n * (i + 1) / num_shards <= n,
        0 <= n * (i + 1) <= n * num_shards,
        i < num_shards - 1 ==> n * (i + 1) <= n * (num_shards - 1),
        0 <= boundary_index(n, num_shards, i) < n,
{
    assert(0 <= n * (i + 1) <= n * num_shards) by (nonlinear_arith)
        requires
            n > 0,
            0 <= i < num_shards,
    ;
    assert(0 <= n * (i + 1) / num_shards <= n) by (nonlinear_arith)
        requires
            0 <= n * (i + 1) <= n * num_shards,
            num_shards > 0,
    ;
    if i < num_shards - 1 {
        assert(n * (i + 1) <= n * (num_shards - 1)) by (nonlinear_arith)
            requires
                n > 0,
                i + 1 <= num_shards - 1,
        ;
    }
}

/// Picks the boundary keys that split a compaction into `num_shards`.
pub fn pick_shard_boundaries(sources: &Vec<ArenaSource>, num_shards: usize) -> (r: Vec<Vec<u8>>)
    requires
        sources@.len() > 0,
        sources_inv(sources@),
        contents_of(sources@)[largest(contents_of(sources@))].len() * (num_shards - 1)
            <= usize::MAX,
    ensures
        keys_of(r@) == boundary_keys(contents_of(sources@), num_shards as int),
{
    let ghost inputs = contents_of(sources@);
    let mut best: usize = 0;
    let mut i: usize = 1;
    assert(inputs.take(1).len() == 1);
    while i < sources.len()
        invariant
            1 <= i <= sources@.len(),
            inputs == contents_of(sources@),
            sources_inv(sources@),
            best == largest(inputs.take(i as int)),
            best < i,
        decreases sources@.len() - i,
    {
        assert(inputs.take(i + 1).drop_last() =~= inputs.take(i as int));
        assert(sources@[i as int].inv() && sources@[best as int].inv());
        if sources[i].total_len() >= sources[best].total_len() {
            best = i;
        }
        i = i + 1;
    }
    assert(inputs.take(i as int) =~= inputs);
    let source = &sources[best];
    assert(source.inv());
    let n: usize = source.total_len();
    let mut keys: Vec<Vec<u8>> = Vec::new();
    let ghost wanted = boundary_keys(inputs, num_shards as int);
    if n == 0 || num_shards == 0 {
        assert(keys_of(keys@) =~= wanted);
        return keys;
    }
    let mut shard: usize = 1;
    assert(keys_of(keys@) =~= wanted.take(0));
    while shard < num_shards
        invariant
            1 <= shard <= num_shards,
            n > 0,
            n * (num_shards - 1) <= usize::MAX,
            source.inv(),
            source.entries() == inputs[largest(inputs)],
            n == source.entries().len(),
            wanted == boundary_keys(inputs, num_shards as int),
            keys_of(keys@) == wanted.take(shard - 1),
        decreases num_shards - shard,
    {
        proof {
            lemma_boundary_index(n as int, num_shards as int, shard - 1);
        }
        let index: usize = (n * shard) / num_shards;
        let capped: usize = if index < n - 1 {
            index
        } else {
            n - 1
        };
        let ghost before = keys_of(keys@);
        keys.push(copy_bytes(source.key_at(capped)));
        assert(keys_of(keys@) =~= before.push(wanted[shard - 1]));
        assert(wanted.take(shard as int) =~= wanted.take(shard - 1).push(wanted[shard - 1]));
        shard = shard + 1;
    }
    assert(wanted.take(shard - 1) =~= wanted);
    keys
}

/// How many of the first entries have a user key that comes before the one of
/// `boundary`.
pub open spec fn cut_at(entries: Seq<Entry>, boundary: Seq<u8>) -> int
    decreases entries.len(),
{
    if entries.len() == 0 || !bytes_before(user_part(entries[0].0), user_part(boundary)) {
        0
    } else {
        1 + cut_at(entries.drop_first(), boundary)
    }
}

/// Where shard `s` starts: at the first entry, or where the boundary before it
/// cuts.
pub open spec fn shard_start(entries: Seq<Entry>, boundaries: Seq<Seq<u8>>, s: int) -> int {
    if s <= 0 {
        0
    } else if s <= boundaries.len() {
        cut_at(entries, boundaries[s - 1])
    } else {
        entries.len() as int
    }
}

/// The part of each input that falls into shard `s`.
pub open spec fn shard_inputs(
    inputs: Seq<Seq<Entry>>,
    boundaries: Seq<Seq<u8>>,
    s: int,
) -> Seq<Seq<Entry>> {
    Seq::new(
        inputs.len(),
        |i: int|
            inputs[i].subrange(
                shard_start(inputs[i], boundaries, s),
                shard_start(inputs[i], boundaries, s + 1),
            ),
    )
}

/// Whether inputs hold internal keys whose user keys ascend.
pub open spec fn inputs_sorted(inputs: Seq<Seq<Entry>>) -> bool {
    forall|i: int|
        0 <= i < inputs.len() ==> all_internal(#[trigger] inputs[i]) && user_keys_ascend(inputs[i])
}

/// Whether boundaries are internal keys whose user keys ascend.
pub open spec fn boundaries_sorted(boundaries: Seq<Seq<u8>>) -> bool {
    &&& forall|i: int|
        0 <= i < boundaries.len() ==> is_internal_key(#[trigger] boundaries[i])
    &&& forall|i: int, j: int|
        0 <= i <= j < boundaries.len() ==> !bytes_before(
            user_part(#[trigger] boundaries[j]),
            user_part(#[trigger] boundaries[i]),
        )
}

/// Cutting sorted entries cuts them in two: what comes before the boundary,
/// and the rest.
pub proof fn lemma_cut_at(entries: Seq<Entry>, boundary: Seq<u8>)
    requires
        user_keys_ascend(entries),
    ensures
        0 <= cut_at(entries, boundary) <= entries.len(),
        forall|i: int|
            0 <= i < cut_at(entries, boundary) ==> bytes_before(
                user_part(#[trigger] entries[i].0),
                user_part(boundary),
            ),
        forall|i: int|
            cut_at(entries, boundary) <= i < entries.len() ==> !bytes_before(
                user_part(#[trigger] entries[i].0),
                user_part(boundary),
            ),
    decreases entries.len(),
{
    if entries.len() > 0 {
        let b = user_part(boundary);
        let rest = entries.drop_first();
        if bytes_before(user_part(entries[0].0), b) {
            assert forall|i: int, j: int| 0 <= i <= j < rest.len() implies !bytes_before(
                user_part(#[trigger] rest[j].0),
                user_part(#[trigger] rest[i].0),
            ) by {
                assert(!bytes_before(user_part(entries[j + 1].0), user_part(entries[i + 1].0)));
            }
            lemma_cut_at(rest, boundary);
            assert forall|i: int| 0 <= i < cut_at(entries, boundary) implies bytes_before(
                user_part(#[trigger] entries[i].0),
                b,
            ) by {
                if i > 0 {
                    assert(rest[i - 1] == entries[i]);
                }
            }
            assert forall|i: int|
                cut_at(entries, boundary) <= i < entries.len() implies !bytes_before(
                user_part(#[trigger] entries[i].0),
                b,
            ) by {
                assert(rest[i - 1] == entries[i]);
            }
        } else {
            assert forall|i: int| 0 <= i < entries.len() implies !bytes_before(
                user_part(#[trigger] entries[i].0),
                b,
            ) by {
                let x = user_part(entries[0].0);
                let y = user_part(entries[i].0);
                assert(!bytes_before(y, x));
                lemma_bytes_order(x, y, b);
                lemma_bytes_order(y, b, x);
            }
        }
    }
}

/// There is only one place to cut.
proof fn lemma_cut_is(entries: Seq<Entry>, boundary: Seq<u8>, r: int)
    requires
        user_keys_ascend(entries),
        0 <= r <= entries.len(),
        forall|i: int|
            0 <= i < r ==> bytes_before(user_part(#[trigger] entries[i].0), user_part(boundary)),
        forall|i: int|
            r <= i < entries.len() ==> !bytes_before(
                user_part(#[trigger] entries[i].0),
                user_part(boundary),
            ),
    ensures
        r == cut_at(entries, boundary),
{
    lemma_cut_at(entries, boundary);
    let c = cut_at(entries, boundary);
    if r < c {
        assert(bytes_before(user_part(entries[r].0), user_part(boundary)));
        assert(!bytes_before(user_part(entries[r].0), user_part(boundary)));
    } else if c < r {
        assert(bytes_before(user_part(entries[c].0), user_part(boundary)));
        assert(!bytes_before(user_part(entries[c].0), user_part(boundary)));
    }
}

/// A shard starts where the one before it ends, and not before it starts.
pub proof fn lemma_shard_starts(entries: Seq<Entry>, boundaries: Seq<Seq<u8>>, s: int)
    requires
        user_keys_ascend(entries),
        boundaries_sorted(boundaries),
        0 <= s <= boundaries.len(),
    ensures
        0 <= shard_start(entries, boundaries, s) <= shard_start(entries, boundaries, s + 1)
            <= entries.len(),
{
    if s > 0 {
        lemma_cut_at(entries, boundaries[s - 1]);
    }
    if s < boundaries.len() {
        lemma_cut_at(entries, boundaries[s]);
        if s > 0 {
            let a = cut_at(entries, boundaries[s - 1]);
            let b = cut_at(entries, boundaries[s]);
            if b < a {
                let x = user_part(entries[b].0);
                assert(bytes_before(x, user_part(boundaries[s - 1])));
                assert(!bytes_before(x, user_part(boundaries[s])));
                assert(!bytes_before(user_part(boundaries[s]), user_part(boundaries[s - 1])));
                lemma_bytes_order(
                    x,
                    user_part(boundaries[s - 1]),
                    user_part(boundaries[s]),
                );
                lemma_bytes_order(user_part(boundaries[s]), x, user_part(boundaries[s - 1]));
            }
        }
    }
}

/// Boundary keys that were picked from a sorted input ascend.
pub proof fn lemma_boundaries_sorted(inputs: Seq<Seq<Entry>>, num_shards: int)
    requires
        inputs.len() > 0,
        inputs_sorted(inputs),
        num_shards >= 1,
    ensures
        boundaries_sorted(boundary_keys(inputs, num_shards)),
{
    lemma_largest(inputs);
    let entries = inputs[largest(inputs)];
    let keys = boundary_keys(inputs, num_shards);
    let n = entries.len() as int;
    assert(all_internal(entries) && user_keys_ascend(entries));
    if n > 0 {
        assert forall|i: int| 0 <= i < keys.len() implies is_internal_key(#[trigger] keys[i]) by {
            lemma_boundary_index(n, num_shards, i);
            assert(is_internal_key(entries[boundary_index(n, num_shards, i)].0));
        }
        assert forall|i: int, j: int| 0 <= i <= j < keys.len() implies !bytes_before(
            user_part(#[trigger] keys[j]),
            user_part(#[trigger] keys[i]),
        ) by {
            lemma_boundary_index(n, num_shards, i);
            lemma_boundary_index(n, num_shards, j);
            assert(n * (i + 1) / num_shards <= n * (j + 1) / num_shards) by (nonlinear_arith)
                requires
                    n > 0,
                    0 <= i <= j,
                    num_shards >= 1,
            ;
            let a = boundary_index(n, num_shards, i);
            let b = boundary_index(n, num_shards, j);
            assert(!bytes_before(user_part(entries[b].0), user_part(entries[a].0)));
        }
    }
}

/// Cuts every source at every boundary. Shard `s` of the result holds the
/// windows on the part of each source between boundary `s - 1` and boundary
/// `s`.
pub fn plan_shards(sources: &Vec<ArenaSource>, boundaries: &Vec<Vec<u8>>) -> (r: Vec<
    Vec<ArenaSource>,
>)
    requires
        sources_inv(sources@),
        inputs_sorted(contents_of(sources@)),
        boundaries_sorted(keys_of(boundaries@)),
    ensures
        r@.len() == boundaries@.len() + 1,
        forall|s: int|
            0 <= s < r@.len() ==> sources_inv((#[trigger] r@[s])@) && inputs_of(r@[s]@)
                == shard_inputs(contents_of(sources@), keys_of(boundaries@), s),
{
    let ghost inputs = contents_of(sources@);
    let ghost cuts = keys_of(boundaries@);
    let mut shards: Vec<Vec<ArenaSource>> = Vec::new();
    let mut s: usize = 0;
    while s < boundaries.len()
        invariant
            s <= boundaries@.len(),
            sources_inv(sources@),
            inputs == contents_of(sources@),
            cuts == keys_of(boundaries@),
            inputs_sorted(inputs),
            boundaries_sorted(cuts),
            shards@.len() == s,
            forall|t: int|
                0 <= t < s ==> sources_inv((#[trigger] shards@[t])@) && inputs_of(shards@[t]@)
                    == shard_inputs(inputs, cuts, t),
        decreases boundaries@.len() - s,
    {
        shards.push(cut_shard(sources, boundaries, s));
        s = s + 1;
    }
    shards.push(cut_shard(sources, boundaries, s));
    shards
}

/// The windows of shard `s`.
fn cut_shard(sources: &Vec<ArenaSource>, boundaries: &Vec<Vec<u8>>, s: usize) -> (r: Vec<
    ArenaSource,
>)
    requires
        sources_inv(sources@),
        inputs_sorted(contents_of(sources@)),
        boundaries_sorted(keys_of(boundaries@)),
        s <= boundaries@.len(),
    ensures
        sources_inv(r@),
        inputs_of(r@) == shard_inputs(contents_of(sources@), keys_of(boundaries@), s as int),
{
    let ghost inputs = contents_of(sources@);
    let ghost cuts = keys_of(boundaries@);
    let mut windows: Vec<ArenaSource> = Vec::with_capacity(sources.len());
    let mut i: usize = 0;
    while i < sources.len()
        invariant
            i <= sources@.len(),
            s <= boundaries@.len(),
            sources_inv(sources@),
            inputs == contents_of(sources@),
            cuts == keys_of(boundaries@),
            inputs_sorted(inputs),
            boundaries_sorted(cuts),
            windows@.len() == i,
            sources_inv(windows@),
            forall|j: int|
                0 <= j < i ==> (#[trigger] windows@[j]).remaining() == shard_inputs(
                    inputs,
                    cuts,
                    s as int,
                )[j],
        decreases sources@.len() - i,
    {
        let source = &sources[i];
        proof {
            assert(source.inv());
            assert(all_internal(inputs[i as int]) && user_keys_ascend(inputs[i as int]));
            lemma_shard_starts(inputs[i as int], cuts, s as int);
        }
        let start: usize = if s == 0 {
            0
        } else {
            lower_cut(source, &boundaries[s - 1])
        };
        let end: usize = if s == boundaries.len() {
            source.total_len()
        } else {
            lower_cut(source, &boundaries[s])
        };
        let ghost before = windows@;
        windows.push(source.shard(start, end));
        assert forall|j: int| 0 <= j < windows@.len() implies (#[trigger] windows@[j]).inv() by {
            if j < i {
                assert(before[j].inv());
            }
        }
        i = i + 1;
    }
    assert(inputs_of(windows@) =~= shard_inputs(inputs, cuts, s as int));
    windows
}

/// Where a boundary cuts a sorted source.
fn lower_cut(source: &ArenaSource, boundary: &Vec<u8>) -> (r: usize)
    requires
        source.inv(),
        all_internal(source.entries()),
        user_keys_ascend(source.entries()),
        is_internal_key(boundary@),
    ensures
        r == cut_at(source.entries(), boundary@),
{
    let r: usize = source.lower_bound(boundary.as_slice());
    proof {
        lemma_cut_is(source.entries(), boundary@, r as int);
    }
    r
}

/// Whether sources can be compacted in so many shards: they are sorted, and
/// memory can hold what comes out.
pub open spec fn shardable(sources: Seq<ArenaSource>, num_shards: usize) -> bool {
    let inputs = contents_of(sources);
    if num_shards <= 1 || sources.len() == 0 {
        compactable(inputs_of(sources))
    } else {
        &&& inputs_sorted(inputs)
        &&& 4 * inputs.len() <= usize::MAX
        &&& total_weight(inputs) + 8 <= usize::MAX
        &&& inputs[largest(inputs)].len() * (num_shards - 1) <= usize::MAX
    }
}

/// Whether `files` are the tables that the default compaction makes of the
/// shards of the sources, in the order of the shards.
pub open spec fn shards_compact_to(
    sources: Seq<ArenaSource>,
    num_shards: usize,
    opts: TableOptions,
    files: Seq<Vec<u8>>,
) -> bool {
    if num_shards <= 1 || sources.len() == 0 {
        &&& files.len() == 1
        &&& compacts_to::<BottommostStrategy>((), inputs_of(sources), opts, files[0]@, ())
    } else {
        let inputs = contents_of(sources);
        let boundaries = boundary_keys(inputs, num_shards as int);
        &&& files.len() == boundaries.len() + 1
        &&& forall|s: int|
            0 <= s < files.len() ==> compacts_to::<BottommostStrategy>(
                (),
                shard_inputs(inputs, boundaries, s),
                opts,
                (#[trigger] files[s])@,
                (),
            )
    }
}

/// Compacts sources in shards, one after the other.
pub fn compact_sharded(
    sources: Vec<ArenaSource>,
    num_shards: usize,
    opts: CompactionOptions,
) -> (r: Result<Vec<Vec<u8>>, FormatError>)
    requires
        sources_inv(sources@),
        shardable(sources@, num_shards),
    ensures
        r matches Ok(files) && shards_compact_to(sources@, num_shards, opts.sst_builder@, files@),
{
    let mut outputs: Vec<Vec<u8>> = Vec::new();
    if num_shards <= 1 || sources.len() == 0 {
        match compact(sources, &opts) {
            Ok(file) => {
                outputs.push(file);
            },
            Err(e) => {
                return Err(e);
            },
        }
        return Ok(outputs);
    }
    let boundaries = pick_shard_boundaries(&sources, num_shards);
    let ghost inputs = contents_of(sources@);
    let ghost cuts = keys_of(boundaries@);
    proof {
        lemma_boundaries_sorted(inputs, num_shards as int);
    }
    let mut shards = plan_shards(&sources, &boundaries);
    let ghost planned = shards@;
    assert(planned.skip(0) =~= planned);
    while shards.len() > 0
        invariant
            planned.len() == cuts.len() + 1,
            shards@.len() + outputs@.len() == planned.len(),
            shards@ == planned.skip(outputs@.len() as int),
            inputs_sorted(inputs),
            boundaries_sorted(cuts),
            4 * inputs.len() <= usize::MAX,
            total_weight(inputs) + 8 <= usize::MAX,
            forall|s: int|
                0 <= s < planned.len() ==> sources_inv((#[trigger] planned[s])@) && inputs_of(
                    planned[s]@,
                ) == shard_inputs(inputs, cuts, s),
            forall|s: int|
                0 <= s < outputs@.len() ==> compacts_to::<BottommostStrategy>(
                    (),
                    shard_inputs(inputs, cuts, s),
                    opts.sst_builder@,
                    (#[trigger] outputs@[s])@,
                    (),
                ),
        decreases shards@.len(),
    {
        let ghost s = outputs@.len() as int;
        let windows = shards.remove(0);
        proof {
            assert(windows == planned[s]);
            assert(shards@ =~= planned.skip(s + 1));
            lemma_shard_compactable(inputs, cuts, s);
        }
        match compact(windows, &opts) {
            Ok(file) => {
                outputs.push(file);
            },
            Err(e) => {
                return Err(e);
            },
        }
    }
    Ok(outputs)
}

/// A part of some entries weighs no more than all.
proof fn lemma_weight_part(entries: Seq<Entry>, a: int, b: int)
    requires
        0 <= a <= b <= entries.len(),
    ensures
        weight(entries.subrange(a, b)) <= weight(entries),
    decreases entries.len(),
{
    if b < entries.len() {
        lemma_weight_part(entries.drop_last(), a, b);
        assert(entries.drop_last().subrange(a, b) =~= entries.subrange(a, b));
    } else if a > 0 {
        lemma_weight_drop_first(entries);
        lemma_weight_part(entries.drop_first(), a - 1, b - 1);
        assert(entries.drop_first().subrange(a - 1, b - 1) =~= entries.subrange(a, b));
    } else {
        assert(entries.subrange(a, b) =~= entries);
    }
}

proof fn lemma_total_weight_parts(whole: Seq<Seq<Entry>>, parts: Seq<Seq<Entry>>)
    requires
        whole.len() == parts.len(),
        forall|i: int| 0 <= i < whole.len() ==> weight(#[trigger] parts[i]) <= weight(whole[i]),
    ensures
        total_weight(parts) <= total_weight(whole),
    decreases whole.len(),
{
    if whole.len() > 0 {
        assert forall|i: int| 0 <= i < whole.drop_last().len() implies weight(
            #[trigger] parts.drop_last()[i],
        ) <= weight(whole.drop_last()[i]) by {
            assert(weight(parts[i]) <= weight(whole[i]));
        }
        lemma_total_weight_parts(whole.drop_last(), parts.drop_last());
        assert(weight(parts[whole.len() - 1]) <= weight(whole[whole.len() - 1]));
    }
}

/// A shard of sorted inputs can be compacted if all of them can.
pub proof fn lemma_shard_compactable(inputs: Seq<Seq<Entry>>, boundaries: Seq<Seq<u8>>, s: int)
    requires
        inputs_sorted(inputs),
        boundaries_sorted(boundaries),
        0 <= s <= boundaries.len(),
        4 * inputs.len() <= usize::MAX,
        total_weight(inputs) + 8 <= usize::MAX,
    ensures
        compactable(shard_inputs(inputs, boundaries, s)),
{
    let shard = shard_inputs(inputs, boundaries, s);
    assert forall|i: int| 0 <= i < inputs.len() implies weight(#[trigger] shard[i]) <= weight(
        inputs[i],
    ) by {
        assert(user_keys_ascend(inputs[i]));
        lemma_shard_starts(inputs[i], boundaries, s);
        lemma_weight_part(
            inputs[i],
            shard_start(inputs[i], boundaries, s),
            shard_start(inputs[i], boundaries, s + 1),
        );
    }
    lemma_total_weight_parts(inputs, shard);
    assert forall|i: int, k: int| 0 <= i < shard.len() && 0 <= k < shard[i].len() implies
        is_internal_key(#[trigger] shard[i][k].0) by {
        assert(all_internal(inputs[i]) && user_keys_ascend(inputs[i]));
        lemma_shard_starts(inputs[i], boundaries, s);
        assert(is_internal_key(inputs[i][shard_start(inputs[i], boundaries, s) + k].0));
    }
    assert(all_comparable::<InternalKeyComparator>(shard));
}

/// The entries of two inputs one behind the other, input by input.
spec fn joined_inputs(a: Seq<Seq<Entry>>, b: Seq<Seq<Entry>>) -> Seq<Seq<Entry>> {
    Seq::new(a.len(), |i: int| a[i] + b[i])
}

/// Where nothing in `b` comes before anything in `a`, merging `a` and then `b`
/// is merging both.
proof fn lemma_merge_concat(
    a: Seq<Seq<Entry>>,
    b: Seq<Seq<Entry>>,
    x: Seq<Entry>,
    y: Seq<Entry>,
)
    requires
        a.len() == b.len(),
        is_merge::<InternalKeyComparator>(a, x),
        is_merge::<InternalKeyComparator>(b, y),
        forall|i: int, k: int, j: int, l: int|
            0 <= i < a.len() && 0 <= k < a[i].len() && 0 <= j < b.len() && 0 <= l < b[j].len()
                ==> !internal_before(#[trigger] b[j][l].0, #[trigger] a[i][k].0),
    ensures
        is_merge::<InternalKeyComparator>(joined_inputs(a, b), x + y),
    decreases x.len(),
{
    let both = joined_inputs(a, b);
    if x.len() == 0 {
        assert forall|i: int| 0 <= i < a.len() implies a[i] + b[i] == #[trigger] b[i] by {
            assert(!has_front(a, i));
            assert(a[i] + b[i] =~= b[i]);
        }
        assert(both =~= b);
        assert(x + y =~= y);
    } else {
        let i = choose|i: int|
            {
                &&& #[trigger] is_smallest::<InternalKeyComparator>(a, i)
                &&& a[i][0] == x[0]
                &&& is_merge::<InternalKeyComparator>(without_front(a, i), x.drop_first())
            };
        let rest = without_front(a, i);
        assert forall|i2: int, k: int, j: int, l: int|
            0 <= i2 < rest.len() && 0 <= k < rest[i2].len() && 0 <= j < b.len() && 0 <= l
                < b[j].len() implies !internal_before(
            #[trigger] b[j][l].0,
            #[trigger] rest[i2][k].0,
        ) by {
            if i2 == i {
                assert(rest[i2][k] == a[i2][k + 1]);
            } else {
                assert(rest[i2][k] == a[i2][k]);
            }
        }
        lemma_merge_concat(rest, b, x.drop_first(), y);
        assert(without_front(both, i) =~= joined_inputs(rest, b)) by {
            assert((a[i] + b[i]).drop_first() =~= a[i].drop_first() + b[i]);
        }
        assert(both[i][0] == a[i][0]);
        assert(is_smallest::<InternalKeyComparator>(both, i)) by {
            assert forall|j: int| j != i && #[trigger] has_front(both, j) implies !internal_before(
                front_key(both, j),
                front_key(both, i),
            ) by {
                if a[j].len() > 0 {
                    assert(has_front(a, j));
                    assert(both[j][0] == a[j][0]);
                } else {
                    assert(both[j][0] == b[j][0]);
                    assert(!internal_before(b[j][0].0, a[i][0].0));
                }
            }
        }
        assert((x + y).drop_first() =~= x.drop_first() + y);
    }
}

/// What falls into the shards before `s`.
spec fn inputs_before(
    inputs: Seq<Seq<Entry>>,
    boundaries: Seq<Seq<u8>>,
    s: int,
) -> Seq<Seq<Entry>> {
    Seq::new(inputs.len(), |i: int| inputs[i].take(shard_start(inputs[i], boundaries, s)))
}

/// Nothing in a shard comes before anything in an earlier one, not even with
/// the same user key.
proof fn lemma_shards_apart(
    inputs: Seq<Seq<Entry>>,
    boundaries: Seq<Seq<u8>>,
    s: int,
    i: int,
    k: int,
    j: int,
    l: int,
)
    requires
        inputs_sorted(inputs),
        boundaries_sorted(boundaries),
        0 <= s <= boundaries.len(),
        0 <= i < inputs.len(),
        0 <= j < inputs.len(),
        0 <= k < inputs_before(inputs, boundaries, s)[i].len(),
        0 <= l < shard_inputs(inputs, boundaries, s)[j].len(),
    ensures
        bytes_before(
            user_part(inputs_before(inputs, boundaries, s)[i][k].0),
            user_part(shard_inputs(inputs, boundaries, s)[j][l].0),
        ),
{
    assert(user_keys_ascend(inputs[i]) && user_keys_ascend(inputs[j]));
    lemma_shard_starts(inputs[i], boundaries, s);
    lemma_shard_starts(inputs[j], boundaries, s);
    if s > 0 {
        let b = boundaries[s - 1];
        lemma_cut_at(inputs[i], b);
        lemma_cut_at(inputs[j], b);
        let x = user_part(inputs[i][k].0);
        let y = user_part(inputs[j][shard_start(inputs[j], boundaries, s) + l].0);
        assert(bytes_before(x, user_part(b)));
        assert(!bytes_before(y, user_part(b)));
        lemma_bytes_order(x, user_part(b), y);
        lemma_bytes_order(y, user_part(b), x);
    }
}

/// Later shards start later.
proof fn lemma_shard_starts_ascend(entries: Seq<Entry>, boundaries: Seq<Seq<u8>>, s: int, t: int)
    requires
        user_keys_ascend(entries),
        boundaries_sorted(boundaries),
        0 <= s <= t <= boundaries.len() + 1,
    ensures
        0 <= shard_start(entries, boundaries, s) <= shard_start(entries, boundaries, t)
            <= entries.len(),
    decreases t - s,
{
    if s < t {
        lemma_shard_starts(entries, boundaries, s);
        lemma_shard_starts_ascend(entries, boundaries, s + 1, t);
    } else if s <= boundaries.len() {
        lemma_shard_starts(entries, boundaries, s);
    }
}

/// No user key is in two shards: every user key of a shard comes before every
/// user key of a later one, whatever inputs they are from.
pub proof fn lemma_shards_share_no_user_key(
    inputs: Seq<Seq<Entry>>,
    boundaries: Seq<Seq<u8>>,
    s: int,
    t: int,
    i: int,
    k: int,
    j: int,
    l: int,
)
    requires
        inputs_sorted(inputs),
        boundaries_sorted(boundaries),
        0 <= s < t <= boundaries.len(),
        0 <= i < inputs.len(),
        0 <= j < inputs.len(),
        0 <= k < shard_inputs(inputs, boundaries, s)[i].len(),
        0 <= l < shard_inputs(inputs, boundaries, t)[j].len(),
    ensures
        bytes_before(
            user_part(shard_inputs(inputs, boundaries, s)[i][k].0),
            user_part(shard_inputs(inputs, boundaries, t)[j][l].0),
        ),
{
    assert(user_keys_ascend(inputs[i]));
    lemma_shard_starts_ascend(inputs[i], boundaries, 0, s);
    lemma_shard_starts(inputs[i], boundaries, s);
    lemma_shard_starts_ascend(inputs[i], boundaries, s + 1, t);
    let at = shard_start(inputs[i], boundaries, s) + k;
    assert(inputs_before(inputs, boundaries, t)[i][at] == inputs[i][at]);
    lemma_shards_apart(inputs, boundaries, t, i, at, j, l);
}

#[verifier::rlimit(50)]
proof fn lemma_shards_merge_upto(
    inputs: Seq<Seq<Entry>>,
    boundaries: Seq<Seq<u8>>,
    merges: Seq<Seq<Entry>>,
    s: int,
)
    requires
        inputs_sorted(inputs),
        boundaries_sorted(boundaries),
        merges.len() == boundaries.len() + 1,
        forall|t: int|
            0 <= t < merges.len() ==> is_merge::<InternalKeyComparator>(
                shard_inputs(inputs, boundaries, t),
                #[trigger] merges[t],
            ),
        0 <= s <= merges.len(),
    ensures
        is_merge::<InternalKeyComparator>(
            inputs_before(inputs, boundaries, s),
            flat(merges.take(s)),
        ),
        bottommost(flat(merges.take(s))) == flat(
            Seq::new(s as nat, |t: int| bottommost(merges[t])),
        ),
    decreases s,
{
    let so_far = inputs_before(inputs, boundaries, s);
    if s == 0 {
        assert(merges.take(0) =~= Seq::<Seq<Entry>>::empty());
        assert forall|i: int| !#[trigger] has_front(so_far, i) by {}
        assert(Seq::new(0, |t: int| bottommost(merges[t])) =~= Seq::<Seq<Entry>>::empty());
    } else {
        let t = s - 1;
        let a = inputs_before(inputs, boundaries, t);
        let b = shard_inputs(inputs, boundaries, t);
        let x = flat(merges.take(t));
        let y = merges[t];
        lemma_shards_merge_upto(inputs, boundaries, merges, t);
        assert(is_merge::<InternalKeyComparator>(b, y));
        assert forall|i: int, k: int, j: int, l: int|
            0 <= i < a.len() && 0 <= k < a[i].len() && 0 <= j < b.len() && 0 <= l < b[j].len()
            implies !internal_before(#[trigger] b[j][l].0, #[trigger] a[i][k].0) by {
            lemma_shards_apart(inputs, boundaries, t, i, k, j, l);
            lemma_bytes_order(user_part(a[i][k].0), user_part(b[j][l].0), user_part(a[i][k].0));
        }
        lemma_merge_concat(a, b, x, y);
        assert(joined_inputs(a, b) =~= so_far) by {
            assert forall|i: int| 0 <= i < inputs.len() implies a[i] + b[i] == #[trigger] so_far[i] by {
                assert(user_keys_ascend(inputs[i]));
                lemma_shard_starts(inputs[i], boundaries, t);
                assert(a[i] + b[i] =~= so_far[i]);
            }
        }
        assert(merges.take(s).drop_last() =~= merges.take(t));
        assert(merges.take(s).last() == y);
        lemma_parts_internal(inputs, boundaries, t, x, y);
        lemma_bottommost_concat(x, y);
        let kept = Seq::new(s as nat, |u: int| bottommost(merges[u]));
        assert(kept.drop_last() =~= Seq::new(t as nat, |u: int| bottommost(merges[u])));
    }
}

/// What has been merged of earlier shards and of the next shares no user key.
proof fn lemma_parts_internal(
    inputs: Seq<Seq<Entry>>,
    boundaries: Seq<Seq<u8>>,
    t: int,
    x: Seq<Entry>,
    y: Seq<Entry>,
)
    requires
        inputs_sorted(inputs),
        boundaries_sorted(boundaries),
        0 <= t <= boundaries.len(),
        is_merge::<InternalKeyComparator>(inputs_before(inputs, boundaries, t), x),
        is_merge::<InternalKeyComparator>(shard_inputs(inputs, boundaries, t), y),
    ensures
        all_internal(x),
        all_internal(y),
        x.len() > 0 && y.len() > 0 ==> user_part(x.last().0) != user_part(y[0].0),
{
    let a = inputs_before(inputs, boundaries, t);
    let b = shard_inputs(inputs, boundaries, t);
    assert forall|p: int| 0 <= p < x.len() implies is_internal_key(#[trigger] x[p].0) by {
        let at = lemma_merge_origin::<InternalKeyComparator>(a, x, p);
        assert(all_internal(inputs[at.0]) && user_keys_ascend(inputs[at.0]));
        lemma_shard_starts(inputs[at.0], boundaries, t);
        assert(is_internal_key(inputs[at.0][at.1].0));
    }
    assert forall|p: int| 0 <= p < y.len() implies is_internal_key(#[trigger] y[p].0) by {
        let at = lemma_merge_origin::<InternalKeyComparator>(b, y, p);
        assert(all_internal(inputs[at.0]) && user_keys_ascend(inputs[at.0]));
        lemma_shard_starts(inputs[at.0], boundaries, t);
        assert(is_internal_key(
            inputs[at.0][shard_start(inputs[at.0], boundaries, t) + at.1].0,
        ));
    }
    if x.len() > 0 && y.len() > 0 {
        let from = lemma_merge_origin::<InternalKeyComparator>(a, x, x.len() - 1);
        let to = lemma_merge_origin::<InternalKeyComparator>(b, y, 0);
        lemma_shards_apart(inputs, boundaries, t, from.0, from.1, to.0, to.1);
        lemma_bytes_order(user_part(x.last().0), user_part(y[0].0), user_part(x.last().0));
    }
}

/// Where the second part starts with a new user key, the default strategy
/// keeps of both parts what it keeps of each.
proof fn lemma_bottommost_concat(x: Seq<Entry>, y: Seq<Entry>)
    requires
        all_internal(x),
        all_internal(y),
        x.len() > 0 && y.len() > 0 ==> user_part(x.last().0) != user_part(y[0].0),
    ensures
        bottommost(x + y) == bottommost(x) + bottommost(y),
        y.len() > 0 ==> walk::<BottommostStrategy>((), x + y).last == walk::<BottommostStrategy>(
            (),
            y,
        ).last,
    decreases y.len(),
{
    if y.len() == 0 {
        assert(x + y =~= x);
        assert(bottommost(x) + bottommost(y) =~= bottommost(x));
    } else {
        let before = y.drop_last();
        assert forall|p: int| 0 <= p < before.len() implies is_internal_key(
            #[trigger] before[p].0,
        ) by {
            assert(is_internal_key(y[p].0));
        }
        lemma_bottommost_concat(x, before);
        assert((x + y).drop_last() =~= x + before);
        assert(is_internal_key(y[y.len() - 1].0));
        if before.len() == 0 {
            assert(x + before =~= x);
            if x.len() > 0 {
                assert(is_internal_key(x[x.len() - 1].0));
            }
            assert(before =~= Seq::<Entry>::empty());
        }
        let end = y.last();
        assert((bottommost(x) + bottommost(before)).push(end) =~= bottommost(x) + bottommost(
            before,
        ).push(end));
    }
}

/// Sharding changes nothing: merges of the shards, one behind the other, are a
/// merge of the whole, and what is kept of the shards is what is kept of it.
pub proof fn lemma_sharded_matches_unsharded(
    inputs: Seq<Seq<Entry>>,
    boundaries: Seq<Seq<u8>>,
    merges: Seq<Seq<Entry>>,
)
    requires
        inputs_sorted(inputs),
        boundaries_sorted(boundaries),
        merges.len() == boundaries.len() + 1,
        forall|s: int|
            0 <= s < merges.len() ==> is_merge::<InternalKeyComparator>(
                shard_inputs(inputs, boundaries, s),
                #[trigger] merges[s],
            ),
    ensures
        is_merge::<InternalKeyComparator>(inputs, flat(merges)),
        bottommost(flat(merges)) == flat(
            Seq::new(merges.len(), |s: int| bottommost(merges[s])),
        ),
{
    let n = merges.len() as int;
    lemma_shards_merge_upto(inputs, boundaries, merges, n);
    assert(merges.take(n) =~= merges);
    assert(inputs_before(inputs, boundaries, n) =~= inputs) by {
        assert forall|i: int| 0 <= i < inputs.len() implies inputs[i].take(
            shard_start(inputs[i], boundaries, n),
        ) == #[trigger] inputs[i] by {
            assert(inputs[i].take(inputs[i].len() as int) =~= inputs[i]);
        }
    }
}

/// Groups of entries as they are written.
proof fn lemma_written_flat(groups: Seq<Seq<Entry>>, opts: TableOptions)
    ensures
        written_entries(flat(groups), opts) == flat(
            Seq::new(groups.len(), |s: int| written_entries(groups[s], opts)),
        ),
    decreases groups.len(),
{
    let written = Seq::new(groups.len(), |s: int| written_entries(groups[s], opts));
    if groups.len() == 0 {
        assert(written_entries(flat(groups), opts) =~= flat(written));
    } else {
        let before = groups.drop_last();
        lemma_written_flat(before, opts);
        assert(written.drop_last() =~= Seq::new(
            before.len(),
            |s: int| written_entries(before[s], opts),
        ));
        assert(written_entries(flat(before) + groups.last(), opts) =~= written_entries(
            flat(before),
            opts,
        ) + written_entries(groups.last(), opts));
    }
}

/// Reading the tables of all shards, one after the other, gives what reading
/// the table of one compaction of everything gives, where different newest
/// versions of a user key have different keys and every table can be read
/// back, whatever the order of equal keys in the merges.
#[verifier::rlimit(50)]
pub proof fn lemma_sharded_reads_the_same(
    inputs: Seq<Seq<Entry>>,
    boundaries: Seq<Seq<u8>>,
    merges: Seq<Seq<Entry>>,
    merged: Seq<Entry>,
    opts: TableOptions,
)
    requires
        inputs_sorted(inputs),
        all_ascending::<InternalKeyComparator>(inputs),
        first_ties_agree(all_entries(inputs)),
        boundaries_sorted(boundaries),
        merges.len() == boundaries.len() + 1,
        forall|s: int|
            0 <= s < merges.len() ==> is_merge::<InternalKeyComparator>(
                shard_inputs(inputs, boundaries, s),
                #[trigger] merges[s],
            ),
        forall|s: int|
            0 <= s < merges.len() ==> readable(
                written_entries(bottommost(#[trigger] merges[s]), opts),
                opts,
            ),
        is_merge::<InternalKeyComparator>(inputs, merged),
        readable(written_entries(bottommost(merged), opts), opts),
    ensures
        flat(
            Seq::new(
                merges.len(),
                |s: int| table_entries(table_bytes(bottommost(merges[s]), opts)).0,
            ),
        ) == table_entries(table_bytes(bottommost(merged), opts)).0,
{
    lemma_sharded_matches_unsharded(inputs, boundaries, merges);
    assert(all_comparable::<InternalKeyComparator>(inputs)) by {
        assert forall|i: int, k: int| 0 <= i < inputs.len() && 0 <= k < inputs[i].len() implies
            is_internal_key(#[trigger] inputs[i][k].0) by {
            assert(all_internal(inputs[i]));
        }
    }
    lemma_kept_is_unique(inputs, merged, flat(merges));
    let kept = Seq::new(merges.len(), |s: int| bottommost(merges[s]));
    lemma_written_flat(kept, opts);
    lemma_table_round_trip(written_entries(bottommost(merged), opts), opts);
    let read = Seq::new(
        merges.len(),
        |s: int| table_entries(table_bytes(bottommost(merges[s]), opts)).0,
    );
    let written = Seq::new(kept.len(), |s: int| written_entries(kept[s], opts));
    assert(read =~= written) by {
        assert forall|s: int| 0 <= s < merges.len() implies read[s] == written[s] by {
            assert(readable(written_entries(bottommost(merges[s]), opts), opts));
            lemma_table_round_trip(written_entries(bottommost(merges[s]), opts), opts);
        }
    }
}

/// The last of the longest inputs.
proof fn lemma_largest_is(inputs: Seq<Seq<Entry>>, longest: int)
    requires
        0 <= longest < inputs.len(),
        forall|j: int| 0 <= j < inputs.len() ==> (#[trigger] inputs[j]).len() <= inputs[longest].len(),
        forall|j: int| longest < j < inputs.len() ==> (#[trigger] inputs[j]).len()
            < inputs[longest].len(),
    ensures
        largest(inputs) == longest,
    decreases inputs.len(),
{
    if inputs.len() > 1 {
        let before = inputs.drop_last();
        lemma_largest(before);
        if longest < before.len() {
            assert forall|j: int| 0 <= j < before.len() implies (#[trigger] before[j]).len()
                <= before[longest].len() by {
                assert(before[j] == inputs[j]);
            }
            assert forall|j: int| longest < j < before.len() implies (#[trigger] before[j]).len()
                < before[longest].len() by {
                assert(before[j] == inputs[j]);
            }
            lemma_largest_is(before, longest);
            assert(inputs[inputs.len() - 1].len() < inputs[longest].len());
        } else {
            assert(inputs[largest(before)].len() <= inputs[longest].len());
        }
    }
}

/// The boundaries are taken from the longest input, the last of several, at even
/// distances: boundary `i` of a compaction in `num_shards` is the key that has
/// `i + 1` of `num_shards` parts of its entries in front of it.
pub proof fn lemma_even_boundaries(
    inputs: Seq<Seq<Entry>>,
    num_shards: int,
    longest: int,
    i: int,
)
    requires
        0 <= longest < inputs.len(),
        inputs[longest].len() > 0,
        forall|j: int| 0 <= j < inputs.len() ==> (#[trigger] inputs[j]).len() <= inputs[longest].len(),
        forall|j: int| longest < j < inputs.len() ==> (#[trigger] inputs[j]).len()
            < inputs[longest].len(),
        num_shards >= 1,
    ensures
        boundary_keys(inputs, num_shards).len() == num_shards - 1,
        0 <= i < num_shards - 1 ==> ({
            let n = inputs[longest].len() as int;
            let at = n * (i + 1) / num_shards;
            &&& 0 <= at < n
            &&& boundary_keys(inputs, num_shards)[i] == inputs[longest][at].0
        }),
{
    lemma_largest_is(inputs, longest);
    if 0 <= i < num_shards - 1 {
        let n = inputs[longest].len() as int;
        lemma_boundary_index(n, num_shards, i);
        assert(n * (i + 1) / num_shards < n) by (nonlinear_arith)
            requires
                n > 0,
                0 <= i < num_shards - 1,
        ;
    }
}

/// Which entries of an input fall into shard `s`: those from `at.0` up to `at.1`,
/// which are exactly those whose user key does not come before the boundary in
/// front of the shard and comes before the one behind it.
pub proof fn lemma_shard_entries(
    inputs: Seq<Seq<Entry>>,
    boundaries: Seq<Seq<u8>>,
    s: int,
    i: int,
) -> (at: (int, int))
    requires
        inputs_sorted(inputs),
        boundaries_sorted(boundaries),
        0 <= s <= boundaries.len(),
        0 <= i < inputs.len(),
    ensures
        0 <= at.0 <= at.1 <= inputs[i].len(),
        shard_inputs(inputs, boundaries, s).len() == inputs.len(),
        shard_inputs(inputs, boundaries, s)[i] == inputs[i].subrange(at.0, at.1),
        forall|k: int|
            0 <= k < inputs[i].len() ==> (at.0 <= k < at.1 <==> {
                let user_key = user_part((#[trigger] inputs[i][k]).0);
                &&& s > 0 ==> !bytes_before(user_key, user_part(boundaries[s - 1]))
                &&& s < boundaries.len() ==> bytes_before(user_key, user_part(boundaries[s]))
            }),
{
    let entries = inputs[i];
    assert(user_keys_ascend(entries));
    lemma_shard_starts(entries, boundaries, s);
    let at = (
        shard_start(entries, boundaries, s),
        shard_start(entries, boundaries, s + 1),
    );
    if s > 0 {
        lemma_cut_at(entries, boundaries[s - 1]);
    }
    if s < boundaries.len() {
        lemma_cut_at(entries, boundaries[s]);
    }
    at
}

} // verus!
