//! Inputs for compactions, made from random draws.

use crate::entry::{append_bytes, copy_bytes, entries_of, Entry};
use crate::format::internal_key::{
    is_internal_key, join_key, lemma_join_key, sequence_part, user_part,
};
use crate::fuzzer::{internal_key_of, lemma_made_key, packed, TYPE_DELETION, TYPE_VALUE};
use crate::merge::cmp::InternalKeyComparator;
use crate::merge::merged::{all_ascending, all_comparable, all_entries, ascending};
use crate::merge::sort::{insert_sorted, keys_comparable, lemma_sorted_by, sorted_by};
use crate::oracle::{lemma_versions_agree, newest_agree, versions_agree};
use vstd::prelude::*;
use vstd::string::*;

verus! {

/// The decimal digits of a number.
pub open spec fn decimal(n: nat) -> Seq<u8>
    decreases n,
{
    if n < 10 {
        seq![(48 + n) as u8]
    } else {
        decimal(n / 10).push((48 + n % 10) as u8)
    }
}

/// The decimal digits of a number, with zeros in front up to a width.
pub open spec fn padded(n: nat, width: nat) -> Seq<u8> {
    if decimal(n).len() >= width {
        decimal(n)
    } else {
        Seq::new((width - decimal(n).len()) as nat, |i: int| 48u8) + decimal(n)
    }
}

/// The number that decimal digits stand for.
pub open spec fn number(digits: Seq<u8>) -> int
    decreases digits.len(),
{
    if digits.len() == 0 {
        0
    } else {
        10 * number(digits.drop_last()) + digits.last() - 48
    }
}

proof fn lemma_number_of_decimal(n: nat)
    ensures
        number(decimal(n)) == n,
        decimal(n).len() > 0,
    decreases n,
{
    if n < 10 {
        reveal_with_fuel(number, 2);
        assert(decimal(n).drop_last() =~= Seq::<u8>::empty());
    } else {
        lemma_number_of_decimal(n / 10);
        assert(decimal(n).drop_last() =~= decimal(n / 10));
    }
}

proof fn lemma_number_of_zeros(k: nat, digits: Seq<u8>)
    ensures
        number(Seq::new(k, |i: int| 48u8) + digits) == number(digits),
    decreases k + digits.len(),
{
    let zeros = Seq::new(k, |i: int| 48u8);
    let all = zeros + digits;
    if digits.len() > 0 {
        assert(all.drop_last() =~= zeros + digits.drop_last());
        lemma_number_of_zeros(k, digits.drop_last());
    } else if k > 0 {
        assert(all.drop_last() =~= Seq::new((k - 1) as nat, |i: int| 48u8) + digits);
        lemma_number_of_zeros((k - 1) as nat, digits);
    } else {
        assert(all =~= digits);
    }
}

/// Padded digits stand for the number.
pub proof fn lemma_number_of_padded(n: nat, width: nat)
    ensures
        number(padded(n, width)) == n,
{
    lemma_number_of_decimal(n);
    if decimal(n).len() < width {
        lemma_number_of_zeros((width - decimal(n).len()) as nat, decimal(n));
    }
}

/// Computes `decimal`.
fn decimal_digits(n: usize) -> (r: Vec<u8>)
    ensures
        r@ == decimal(n as nat),
    decreases n,
{
    if n < 10 {
        let mut digits: Vec<u8> = Vec::new();
        digits.push(48 + n as u8);
        assert(digits@ =~= decimal(n as nat));
        digits
    } else {
        let mut digits = decimal_digits(n / 10);
        digits.push(48 + (n % 10) as u8);
        digits
    }
}

/// Computes `padded`.
fn padded_digits(n: usize, width: usize) -> (r: Vec<u8>)
    ensures
        r@ == padded(n as nat, width as nat),
{
    let digits = decimal_digits(n);
    if digits.len() >= width {
        return digits;
    }
    let missing: usize = width - digits.len();
    let mut out: Vec<u8> = vec![48u8; missing];
    assert(out@ =~= Seq::new((width - digits@.len()) as nat, |i: int| 48u8));
    append_bytes(&mut out, digits.as_slice());
    out
}

/// The user key with a number.
pub open spec fn numbered_key(i: nat) -> Seq<u8> {
    "key".spec_bytes() + padded(i, 6)
}

/// The value of a version.
pub open spec fn version_value(i: nat, seq: nat) -> Seq<u8> {
    "value_".spec_bytes() + decimal(i) + "_".spec_bytes() + decimal(seq)
}

/// What was drawn for one user key: whether its newest version deletes it, and
/// which source gets each version, the newest first.
pub struct KeyDraw {
    pub newest_is_tombstone: bool,
    pub sources: Vec<usize>,
}

impl KeyDraw {
    /// Whether there are one to three versions, each for a source that exists.
    pub open spec fn is_valid(self, num_sources: usize) -> bool {
        &&& 1 <= self.sources@.len() <= 3
        &&& forall|v: int|
            0 <= v < self.sources@.len() ==> #[trigger] self.sources@[v] < num_sources
    }

    /// The sequence number of version `v`.
    pub open spec fn seqno(self, v: int) -> int {
        self.sources@.len() - v
    }

    /// The type of version `v`.
    pub open spec fn version_type(self, v: int) -> u8 {
        if v == 0 && self.newest_is_tombstone {
            TYPE_DELETION
        } else {
            TYPE_VALUE
        }
    }

    /// Version `v` of user key `i`.
    pub open spec fn version(self, i: nat, v: int) -> Entry {
        (
            join_key(numbered_key(i), packed(self.seqno(v) as u64, self.version_type(v))),
            version_value(i, self.seqno(v) as nat),
        )
    }

    /// Those of the first `n` versions of user key `i` that source `s` gets.
    pub open spec fn versions_for(self, i: nat, n: int, s: int) -> Seq<Entry>
        decreases n,
    {
        if n <= 0 {
            Seq::empty()
        } else {
            let before = self.versions_for(i, n - 1, s);
            if self.sources@[n - 1] == s {
                before.push(self.version(i, n - 1))
            } else {
                before
            }
        }
    }
}

/// What source `s` gets of all draws, in the order of the draws.
pub open spec fn entries_for(draws: Seq<KeyDraw>, s: int) -> Seq<Entry>
    decreases draws.len(),
{
    if draws.len() == 0 {
        Seq::empty()
    } else {
        let draw = draws.last();
        entries_for(draws.drop_last(), s) + draw.versions_for(
            (draws.len() - 1) as nat,
            draw.sources@.len() as int,
            s,
        )
    }
}

/// What source `s` gets of all draws, sorted.
pub open spec fn generated(draws: Seq<KeyDraw>, s: int) -> Seq<Entry> {
    sorted_by::<InternalKeyComparator>(entries_for(draws, s))
}

/// Sorted entries of each source, with those that were given to it.
struct SortedSources {
    lists: Vec<Vec<(Vec<u8>, Vec<u8>)>>,
    given: Ghost<Seq<Seq<Entry>>>,
}

impl SortedSources {
    spec fn inv(&self) -> bool {
        &&& self.given@.len() == self.lists@.len()
        &&& forall|s: int|
            0 <= s < self.lists@.len() ==> keys_comparable::<InternalKeyComparator>(
                #[trigger] self.given@[s],
            )
        &&& forall|s: int|
            0 <= s < self.lists@.len() ==> entries_of((#[trigger] self.lists@[s])@) == sorted_by::<
                InternalKeyComparator,
            >(self.given@[s])
    }

    fn new(num_sources: usize) -> (r: Self)
        ensures
            r.inv(),
            r.lists@.len() == num_sources,
            forall|s: int| 0 <= s < num_sources ==> #[trigger] r.given@[s] == Seq::<Entry>::empty(),
    {
        let mut lists: Vec<Vec<(Vec<u8>, Vec<u8>)>> = Vec::with_capacity(num_sources);
        let mut i: usize = 0;
        while i < num_sources
            invariant
                i <= num_sources,
                lists@.len() == i,
                forall|s: int| 0 <= s < i ==> (#[trigger] lists@[s])@.len() == 0,
            decreases num_sources - i,
        {
            lists.push(Vec::new());
            i = i + 1;
        }
        let r = SortedSources {
            lists,
            given: Ghost(Seq::new(num_sources as nat, |s: int| Seq::empty())),
        };
        assert forall|s: int| 0 <= s < r.lists@.len() implies entries_of(
            (#[trigger] r.lists@[s])@,
        ) == sorted_by::<InternalKeyComparator>(r.given@[s]) by {
            assert(entries_of(r.lists@[s]@) =~= Seq::<Entry>::empty());
        }
        r
    }

    /// Gives an entry to source `s`.
    fn give(&mut self, s: usize, key: &[u8], value: Vec<u8>)
        requires
            old(self).inv(),
            s < old(self).lists@.len(),
            is_internal_key(key@),
        ensures
            final(self).inv(),
            final(self).lists@.len() == old(self).lists@.len(),
            final(self).given@ == old(self).given@.update(
                s as int,
                old(self).given@[s as int].push((key@, value@)),
            ),
    {
        let ghost lists = self.lists@;
        let ghost given = self.given@;
        let ghost entry = (key@, value@);
        proof {
            assert(keys_comparable::<InternalKeyComparator>(given[s as int]));
            lemma_sorted_by::<InternalKeyComparator>(given[s as int]);
        }
        insert_sorted::<InternalKeyComparator>(&mut self.lists[s], key, value);
        proof {
            let grown = given[s as int].push(entry);
            self.given@ = given.update(s as int, grown);
            assert(grown.drop_last() =~= given[s as int]);
            assert forall|t: int| 0 <= t < self.lists@.len() implies keys_comparable::<
                InternalKeyComparator,
            >(#[trigger] self.given@[t]) by {
                assert(keys_comparable::<InternalKeyComparator>(given[t]));
            }
            assert forall|t: int| 0 <= t < self.lists@.len() implies entries_of(
                (#[trigger] self.lists@[t])@,
            ) == sorted_by::<InternalKeyComparator>(self.given@[t]) by {
                if t != s {
                    assert(self.lists@[t] == lists[t]);
                }
            }
        }
    }
}

/// Makes sorted sources from draws: user key `i` gets the versions that draw
/// `i` says, with sequence numbers that count down from the number of
/// versions.
pub fn sources_from_draws(num_sources: usize, draws: &[KeyDraw]) -> (r: Vec<
    Vec<(Vec<u8>, Vec<u8>)>,
>)
    requires
        forall|i: int| 0 <= i < draws@.len() ==> (#[trigger] draws@[i]).is_valid(num_sources),
    ensures
        r@.len() == num_sources,
        forall|s: int|
            0 <= s < num_sources ==> entries_of((#[trigger] r@[s])@) == generated(draws@, s),
{
    let mut sources = SortedSources::new(num_sources);
    let mut i: usize = 0;
    assert(draws@.take(0) =~= Seq::<KeyDraw>::empty());
    while i < draws.len()
        invariant
            i <= draws@.len(),
            sources.inv(),
            sources.lists@.len() == num_sources,
            forall|i: int| 0 <= i < draws@.len() ==> (#[trigger] draws@[i]).is_valid(num_sources),
            forall|s: int|
                0 <= s < num_sources ==> #[trigger] sources.given@[s] == entries_for(
                    draws@.take(i as int),
                    s,
                ),
        decreases draws@.len() - i,
    {
        give_versions(&mut sources, i, &draws[i]);
        proof {
            let upto = draws@.take(i + 1);
            assert(upto.drop_last() =~= draws@.take(i as int));
            assert(upto.last() == draws@[i as int]);
        }
        i = i + 1;
    }
    assert(draws@.take(i as int) =~= draws@);
    assert forall|s: int| 0 <= s < num_sources implies entries_of(
        (#[trigger] sources.lists@[s])@,
    ) == generated(draws@, s) by {
        assert(sources.given@[s] == entries_for(draws@, s));
    }
    sources.lists
}

/// Gives the versions of user key `i` to their sources.
fn give_versions(sources: &mut SortedSources, i: usize, draw: &KeyDraw)
    requires
        old(sources).inv(),
        draw.is_valid(old(sources).lists@.len() as usize),
        old(sources).lists@.len() <= usize::MAX,
    ensures
        final(sources).inv(),
        final(sources).lists@.len() == old(sources).lists@.len(),
        forall|s: int|
            0 <= s < old(sources).lists@.len() ==> #[trigger] final(sources).given@[s] == old(
                sources,
            ).given@[s] + draw.versions_for(i as nat, draw.sources@.len() as int, s),
{
    let user_key = numbered_user_key(i);
    let versions: usize = draw.sources.len();
    let mut v: usize = 0;
    assert forall|s: int| 0 <= s < sources.lists@.len() implies #[trigger] sources.given@[s]
        == sources.given@[s] + draw.versions_for(i as nat, 0, s) by {
        assert(sources.given@[s] + Seq::<Entry>::empty() =~= sources.given@[s]);
    }
    while v < versions
        invariant
            v <= versions,
            versions == draw.sources@.len(),
            versions <= 3,
            user_key@ == numbered_key(i as nat),
            sources.inv(),
            sources.lists@.len() == old(sources).lists@.len(),
            sources.lists@.len() <= usize::MAX,
            draw.is_valid(sources.lists@.len() as usize),
            forall|s: int|
                0 <= s < sources.lists@.len() ==> #[trigger] sources.given@[s] == old(
                    sources,
                ).given@[s] + draw.versions_for(i as nat, v as int, s),
        decreases versions - v,
    {
        let seq: usize = versions - v;
        let ty: u8 = if v == 0 && draw.newest_is_tombstone {
            TYPE_DELETION
        } else {
            TYPE_VALUE
        };
        let s: usize = draw.sources[v];
        assert(draw.sources@[v as int] < sources.lists@.len());
        let key = internal_key_of(user_key.as_slice(), seq as u64, ty);
        proof {
            lemma_join_key(user_key@, packed(seq as u64, ty));
        }
        let value = value_text(i, seq);
        let ghost before = sources.given@;
        sources.give(s, key.as_slice(), value);
        assert forall|t: int| 0 <= t < sources.lists@.len() implies #[trigger] sources.given@[t]
            == old(sources).given@[t] + draw.versions_for(i as nat, v + 1, t) by {
            let so_far = draw.versions_for(i as nat, v as int, t);
            assert(before[t] == old(sources).given@[t] + so_far);
            if t == s {
                assert((old(sources).given@[t] + so_far).push((key@, value@)) =~= old(
                    sources,
                ).given@[t] + so_far.push((key@, value@)));
            }
        }
        v = v + 1;
    }
}

/// Computes `numbered_key`.
fn numbered_user_key(i: usize) -> (r: Vec<u8>)
    ensures
        r@ == numbered_key(i as nat),
{
    let mut key = copy_bytes("key".as_bytes());
    append_bytes(&mut key, padded_digits(i, 6).as_slice());
    key
}

/// Computes `version_value`.
fn value_text(i: usize, seq: usize) -> (r: Vec<u8>)
    ensures
        r@ == version_value(i as nat, seq as nat),
{
    let mut value = copy_bytes("value_".as_bytes());
    append_bytes(&mut value, decimal_digits(i).as_slice());
    append_bytes(&mut value, "_".as_bytes());
    append_bytes(&mut value, decimal_digits(seq).as_slice());
    value
}

/// Whether `x` is version `v` of user key `i`.
pub open spec fn is_version(draws: Seq<KeyDraw>, i: int, v: int, x: Entry) -> bool {
    &&& 0 <= i < draws.len()
    &&& 0 <= v < draws[i].sources@.len()
    &&& x == draws[i].version(i as nat, v)
}

proof fn lemma_versions_for(draw: KeyDraw, i: nat, n: int, s: int, p: int) -> (v: int)
    requires
        0 <= n <= draw.sources@.len(),
        0 <= p < draw.versions_for(i, n, s).len(),
    ensures
        0 <= v < n,
        draw.sources@[v] == s,
        draw.versions_for(i, n, s)[p] == draw.version(i, v),
    decreases n,
{
    let before = draw.versions_for(i, n - 1, s);
    if p < before.len() {
        lemma_versions_for(draw, i, n - 1, s, p)
    } else {
        n - 1
    }
}

proof fn lemma_entries_for(draws: Seq<KeyDraw>, s: int, p: int) -> (at: (int, int))
    requires
        0 <= p < entries_for(draws, s).len(),
    ensures
        is_version(draws, at.0, at.1, entries_for(draws, s)[p]),
        draws[at.0].sources@[at.1] == s,
    decreases draws.len(),
{
    let before = entries_for(draws.drop_last(), s);
    let n = draws.len() - 1;
    if p < before.len() {
        lemma_entries_for(draws.drop_last(), s, p)
    } else {
        let draw = draws.last();
        let v = lemma_versions_for(
            draw,
            n as nat,
            draw.sources@.len() as int,
            s,
            p - before.len(),
        );
        (n, v)
    }
}

/// A version has the user key and the sequence number that the draw says.
proof fn lemma_version_parts(draws: Seq<KeyDraw>, num_sources: usize, i: int, v: int, x: Entry)
    requires
        is_version(draws, i, v, x),
        draws[i].is_valid(num_sources),
    ensures
        is_internal_key(x.0),
        user_part(x.0) == numbered_key(i as nat),
        sequence_part(x.0) == draws[i].seqno(v),
{
    let draw = draws[i];
    let seq = draw.seqno(v) as u64;
    lemma_join_key(numbered_key(i as nat), packed(seq, draw.version_type(v)));
}

proof fn lemma_entries_internal(draws: Seq<KeyDraw>, num_sources: usize, s: int)
    requires
        forall|i: int| 0 <= i < draws.len() ==> (#[trigger] draws[i]).is_valid(num_sources),
    ensures
        keys_comparable::<InternalKeyComparator>(entries_for(draws, s)),
{
    let given = entries_for(draws, s);
    assert forall|p: int| 0 <= p < given.len() implies is_internal_key(#[trigger] given[p].0) by {
        let at = lemma_entries_for(draws, s, p);
        lemma_version_parts(draws, num_sources, at.0, at.1, given[p]);
    }
}

/// Different numbers make different user keys.
pub proof fn lemma_numbered_keys(i: nat, j: nat)
    requires
        numbered_key(i) == numbered_key(j),
    ensures
        i == j,
{
    let n = "key".spec_bytes().len() as int;
    assert(numbered_key(i).skip(n) =~= padded(i, 6));
    assert(numbered_key(j).skip(n) =~= padded(j, 6));
    lemma_number_of_padded(i, 6);
    lemma_number_of_padded(j, 6);
}

proof fn lemma_entry_origin(inputs: Seq<Seq<Entry>>, x: Entry) -> (s: int)
    requires
        all_entries(inputs).contains(x),
    ensures
        0 <= s < inputs.len(),
        inputs[s].to_multiset().contains(x),
    decreases inputs.len(),
{
    if inputs.len() > 0 && inputs.last().to_multiset().contains(x) {
        inputs.len() - 1
    } else {
        lemma_entry_origin(inputs.drop_last(), x)
    }
}

/// Sources that were made from draws are sorted, and no two different versions
/// of a key have the same sequence number: both ways to compact agree on them.
#[verifier::rlimit(50)]
pub proof fn lemma_generated_sources(
    draws: Seq<KeyDraw>,
    num_sources: usize,
    inputs: Seq<Seq<Entry>>,
)
    requires
        forall|i: int| 0 <= i < draws.len() ==> (#[trigger] draws[i]).is_valid(num_sources),
        forall|s: int| 0 <= s < inputs.len() ==> #[trigger] inputs[s] == generated(draws, s),
    ensures
        all_comparable::<InternalKeyComparator>(inputs),
        all_ascending::<InternalKeyComparator>(inputs),
        versions_agree(all_entries(inputs)),
        newest_agree(all_entries(inputs)),
{
    assert forall|s: int| 0 <= s < inputs.len() implies ascending::<
        InternalKeyComparator,
    >(#[trigger] inputs[s]) by {
        lemma_entries_internal(draws, num_sources, s);
        lemma_sorted_by::<InternalKeyComparator>(entries_for(draws, s));
    }
    assert forall|s: int, k: int| 0 <= s < inputs.len() && 0 <= k < inputs[s].len() implies
        is_internal_key(#[trigger] inputs[s][k].0) by {
        lemma_entries_internal(draws, num_sources, s);
        lemma_sorted_by::<InternalKeyComparator>(entries_for(draws, s));
        assert(keys_comparable::<InternalKeyComparator>(inputs[s]));
    }
    assert forall|x: Entry, y: Entry| #[trigger]
        all_entries(inputs).contains(x) && #[trigger] all_entries(inputs).contains(y) && user_part(
            x.0,
        ) == user_part(y.0) && sequence_part(x.0) == sequence_part(y.0) implies x == y by {
        let a = lemma_generated_origin(draws, num_sources, inputs, x);
        let b = lemma_generated_origin(draws, num_sources, inputs, y);
        lemma_version_parts(draws, num_sources, a.0, a.1, x);
        lemma_version_parts(draws, num_sources, b.0, b.1, y);
        lemma_numbered_keys(a.0 as nat, b.0 as nat);
    }
    lemma_versions_agree(all_entries(inputs));
}

proof fn lemma_generated_origin(
    draws: Seq<KeyDraw>,
    num_sources: usize,
    inputs: Seq<Seq<Entry>>,
    x: Entry,
) -> (at: (int, int))
    requires
        forall|i: int| 0 <= i < draws.len() ==> (#[trigger] draws[i]).is_valid(num_sources),
        forall|s: int| 0 <= s < inputs.len() ==> #[trigger] inputs[s] == generated(draws, s),
        all_entries(inputs).contains(x),
    ensures
        is_version(draws, at.0, at.1, x),
{
    broadcast use vstd::seq_lib::group_to_multiset_ensures;

    let s = lemma_entry_origin(inputs, x);
    let given = entries_for(draws, s);
    assert(inputs[s] == generated(draws, s));
    lemma_entries_internal(draws, num_sources, s);
    lemma_sorted_by::<InternalKeyComparator>(given);
    assert(given.contains(x)) by {
        assert(given.to_multiset().count(x) > 0);
    }
    let p = choose|p: int| 0 <= p < given.len() && given[p] == x;
    lemma_entries_for(draws, s, p)
}

/// Decimal digits, from one digit to the next.
pub proof fn lemma_decimal(m: nat, d: nat)
    requires
        d < 10,
    ensures
        decimal(d) == seq![(0x30 + d) as u8],
        m > 0 ==> decimal(10 * m + d) == decimal(m).push((0x30 + d) as u8),
        padded(m, 6).len() >= 6,
        forall|i: int| 0 <= i < padded(m, 6).len() - decimal(m).len() ==> padded(m, 6)[i] == 0x30,
        padded(m, 6).skip(padded(m, 6).len() - decimal(m).len()) == decimal(m),
{
    if m > 0 {
        assert((10 * m + d) / 10 == m && (10 * m + d) % 10 == d);
    }
    assert(padded(m, 6).skip(padded(m, 6).len() - decimal(m).len()) =~= decimal(m));
}

/// The versions of a key: the newest has the highest sequence number, the count
/// of the versions, and the oldest has 1; only the newest can be a tombstone.
pub proof fn lemma_version_bytes(draw: KeyDraw, i: nat, v: int)
    requires
        0 <= v < draw.sources@.len() <= 3,
    ensures
        ({
            let (key, value) = draw.version(i, v);
            let seq = draw.sources@.len() - v;
            let n = key.len() - 8;
            &&& key.take(n) == "key".spec_bytes() + padded(i, 6)
            &&& sequence_part(key) == seq
            &&& key[n] == if v == 0 && draw.newest_is_tombstone {
                0x00u8
            } else {
                0x01u8
            }
            &&& value == "value_".spec_bytes() + decimal(i) + "_".spec_bytes() + decimal(
                seq as nat,
            )
        }),
{
    lemma_made_key(
        "key".spec_bytes() + padded(i, 6),
        (draw.sources@.len() - v) as u64,
        if v == 0 && draw.newest_is_tombstone {
            0x00u8
        } else {
            0x01u8
        },
    );
}

/// A source gets every version that was drawn for it.
pub proof fn lemma_generated_versions(
    draws: Seq<KeyDraw>,
    num_sources: usize,
    s: int,
    i: int,
    v: int,
)
    requires
        forall|d: int| 0 <= d < draws.len() ==> (#[trigger] draws[d]).is_valid(num_sources),
        0 <= i < draws.len(),
        0 <= v < draws[i].sources@.len(),
        draws[i].sources@[v] == s,
    ensures
        generated(draws, s).contains(draws[i].version(i as nat, v)),
{
    broadcast use vstd::seq_lib::group_to_multiset_ensures;

    let given = entries_for(draws, s);
    let x = draws[i].version(i as nat, v);
    lemma_given(draws, s, i, v);
    lemma_entries_internal(draws, num_sources, s);
    lemma_sorted_by::<InternalKeyComparator>(given);
    assert(given.to_multiset().count(x) > 0);
    assert(generated(draws, s).to_multiset().count(x) > 0);
}

proof fn lemma_given(draws: Seq<KeyDraw>, s: int, i: int, v: int)
    requires
        0 <= i < draws.len(),
        0 <= v < draws[i].sources@.len(),
        draws[i].sources@[v] == s,
    ensures
        entries_for(draws, s).contains(draws[i].version(i as nat, v)),
    decreases draws.len(),
{
    let n = draws.len() - 1;
    let before = entries_for(draws.drop_last(), s);
    let draw = draws.last();
    let added = draw.versions_for(n as nat, draw.sources@.len() as int, s);
    let x = draws[i].version(i as nat, v);
    if i < n {
        lemma_given(draws.drop_last(), s, i, v);
        let p = choose|p: int| 0 <= p < before.len() && before[p] == x;
        assert((before + added)[p] == x);
    } else {
        let p = lemma_version_given(draw, n as nat, draw.sources@.len() as int, s, v);
        assert((before + added)[before.len() + p] == x);
    }
}

proof fn lemma_version_given(draw: KeyDraw, i: nat, n: int, s: int, v: int) -> (p: int)
    requires
        0 <= v < n <= draw.sources@.len(),
        draw.sources@[v] == s,
    ensures
        0 <= p < draw.versions_for(i, n, s).len(),
        draw.versions_for(i, n, s)[p] == draw.version(i, v),
    decreases n,
{
    if v == n - 1 {
        draw.versions_for(i, n - 1, s).len() as int
    } else {
        lemma_version_given(draw, i, n - 1, s, v)
    }
}

/// A source gets nothing but the versions that were drawn for it.
pub proof fn lemma_generated_entries(
    draws: Seq<KeyDraw>,
    num_sources: usize,
    s: int,
    p: int,
) -> (at: (int, int))
    requires
        forall|d: int| 0 <= d < draws.len() ==> (#[trigger] draws[d]).is_valid(num_sources),
        0 <= p < generated(draws, s).len(),
    ensures
        0 <= at.0 < draws.len(),
        0 <= at.1 < draws[at.0].sources@.len(),
        draws[at.0].sources@[at.1] == s,
        generated(draws, s)[p] == draws[at.0].version(at.0 as nat, at.1),
{
    broadcast use vstd::seq_lib::group_to_multiset_ensures;

    let given = entries_for(draws, s);
    let x = generated(draws, s)[p];
    lemma_entries_internal(draws, num_sources, s);
    lemma_sorted_by::<InternalKeyComparator>(given);
    assert(generated(draws, s).to_multiset().count(x) > 0);
    assert(given.to_multiset().count(x) > 0);
    assert(given.contains(x));
    let q = choose|q: int| 0 <= q < given.len() && given[q] == x;
    lemma_entries_for(draws, s, q)
}

/// The types that are drawn.
pub proof fn lemma_drawn_types()
    ensures
        TYPE_VALUE == 0x01,
        TYPE_DELETION == 0x00,
{
}

} // verus!
