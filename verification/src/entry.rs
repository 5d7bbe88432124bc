//! Key/value entries and the visitors that receive them.

use vstd::prelude::*;

verus! {

/// One entry: an encoded key and its value.
pub type Entry = (Seq<u8>, Seq<u8>);

/// The entries that a list of owned pairs holds.
pub open spec fn entries_of(pairs: Seq<(Vec<u8>, Vec<u8>)>) -> Seq<Entry> {
    Seq::new(pairs.len(), |i: int| (pairs[i].0@, pairs[i].1@))
}

/// Groups of entries one behind the other.
pub open spec fn flat(groups: Seq<Seq<Entry>>) -> Seq<Entry>
    decreases groups.len(),
{
    if groups.len() == 0 {
        Seq::empty()
    } else {
        flat(groups.drop_last()) + groups.last()
    }
}

/// How many bytes the keys of `entries` have together.
pub open spec fn key_bytes(entries: Seq<Entry>) -> nat
    decreases entries.len(),
{
    if entries.len() == 0 {
        0
    } else {
        key_bytes(entries.drop_last()) + entries.last().0.len()
    }
}

/// How many bytes the values of `entries` have together.
pub open spec fn value_bytes(entries: Seq<Entry>) -> nat
    decreases entries.len(),
{
    if entries.len() == 0 {
        0
    } else {
        value_bytes(entries.drop_last()) + entries.last().1.len()
    }
}

/// One more entry adds the bytes of its key and its value.
pub proof fn lemma_bytes_push(entries: Seq<Entry>, entry: Entry)
    ensures
        key_bytes(entries.push(entry)) == key_bytes(entries) + entry.0.len(),
        value_bytes(entries.push(entry)) == value_bytes(entries) + entry.1.len(),
{
    assert(entries.push(entry).drop_last() =~= entries);
}

/// The bytes of one key or one value are among those of all.
pub proof fn lemma_bytes_of_one(entries: Seq<Entry>, i: int)
    requires
        0 <= i < entries.len(),
    ensures
        entries[i].0.len() <= key_bytes(entries),
        entries[i].1.len() <= value_bytes(entries),
    decreases entries.len(),
{
    if i < entries.len() - 1 {
        lemma_bytes_of_one(entries.drop_last(), i);
    }
}

/// A prefix has no more bytes than the whole.
pub proof fn lemma_bytes_monotonic(entries: Seq<Entry>, k: int)
    requires
        0 <= k <= entries.len(),
    ensures
        key_bytes(entries.take(k)) <= key_bytes(entries),
        value_bytes(entries.take(k)) <= value_bytes(entries),
    decreases entries.len(),
{
    if k == entries.len() {
        assert(entries.take(k) =~= entries);
    } else {
        lemma_bytes_monotonic(entries.drop_last(), k);
        assert(entries.drop_last().take(k) =~= entries.take(k));
    }
}

/// How much room entries take in a data block: their bytes, and at most
/// nineteen more for the lengths and the restart offset of each.
pub open spec fn weight(entries: Seq<Entry>) -> nat {
    key_bytes(entries) + value_bytes(entries) + 19 * entries.len()
}

/// How much room the entries of several inputs take.
pub open spec fn total_weight(inputs: Seq<Seq<Entry>>) -> nat
    decreases inputs.len(),
{
    if inputs.len() == 0 {
        0
    } else {
        total_weight(inputs.drop_last()) + weight(inputs.last())
    }
}

/// Some of the inputs weigh no more than all.
pub proof fn lemma_total_weight_prefix(inputs: Seq<Seq<Entry>>, k: int)
    requires
        0 <= k <= inputs.len(),
    ensures
        total_weight(inputs.take(k)) <= total_weight(inputs),
    decreases inputs.len(),
{
    if k == inputs.len() {
        assert(inputs.take(k) =~= inputs);
    } else {
        lemma_total_weight_prefix(inputs.drop_last(), k);
        assert(inputs.drop_last().take(k) =~= inputs.take(k));
    }
}

/// One entry less is so much less room.
pub proof fn lemma_weight_drop_first(entries: Seq<Entry>)
    requires
        entries.len() > 0,
    ensures
        weight(entries) == weight(entries.drop_first()) + entries[0].0.len() + entries[0].1.len()
            + 19,
    decreases entries.len(),
{
    if entries.len() == 1 {
        assert(entries.drop_last() =~= Seq::<Entry>::empty());
        assert(entries.drop_first() =~= Seq::<Entry>::empty());
        reveal_with_fuel(key_bytes, 2);
        reveal_with_fuel(value_bytes, 2);
    } else {
        lemma_weight_drop_first(entries.drop_last());
        assert(entries.drop_last().drop_first() =~= entries.drop_first().drop_last());
    }
}

/// Receives entries one at a time, in order.
///
/// `state` is what a visitor has made of the entries so far and `after` what
/// it makes of one more.
pub trait EntryVisitor {
    type State;

    /// Whether the visitor can take another entry.
    spec fn ready(&self) -> bool;

    spec fn state(&self) -> Self::State;

    spec fn after(state: Self::State, key: Seq<u8>, value: Seq<u8>) -> Self::State;

    fn visit(&mut self, key: &[u8], value: &[u8])
        requires
            old(self).ready(),
        ensures
            final(self).ready(),
            final(self).state() == Self::after(old(self).state(), key@, value@),
    ;
}

/// What a visitor makes of a run of entries.
pub open spec fn visit_all<V: EntryVisitor>(state: V::State, entries: Seq<Entry>) -> V::State
    decreases entries.len(),
{
    if entries.len() == 0 {
        state
    } else {
        V::after(
            visit_all::<V>(state, entries.drop_last()),
            entries.last().0,
            entries.last().1,
        )
    }
}

/// Visiting two runs one after the other is visiting their concatenation.
pub proof fn lemma_visit_all_concat<V: EntryVisitor>(
    state: V::State,
    first: Seq<Entry>,
    second: Seq<Entry>,
)
    ensures
        visit_all::<V>(state, first + second) == visit_all::<V>(
            visit_all::<V>(state, first),
            second,
        ),
    decreases second.len(),
{
    if second.len() == 0 {
        assert(first + second =~= first);
    } else {
        assert((first + second).drop_last() =~= first + second.drop_last());
        lemma_visit_all_concat::<V>(state, first, second.drop_last());
    }
}

/// Collects every entry as an owned pair.
pub struct EntryList {
    pub entries: Vec<(Vec<u8>, Vec<u8>)>,
}

impl EntryList {
    pub fn new() -> (r: Self)
        ensures
            r.state() == Seq::<Entry>::empty(),
    {
        let r = EntryList { entries: Vec::new() };
        assert(r.state() =~= Seq::<Entry>::empty());
        r
    }
}

impl EntryVisitor for EntryList {
    type State = Seq<Entry>;

    open spec fn ready(&self) -> bool {
        true
    }

    open spec fn state(&self) -> Seq<Entry> {
        entries_of(self.entries@)
    }

    open spec fn after(state: Seq<Entry>, key: Seq<u8>, value: Seq<u8>) -> Seq<Entry> {
        state.push((key, value))
    }

    fn visit(&mut self, key: &[u8], value: &[u8]) {
        self.entries.push((copy_bytes(key), copy_bytes(value)));
        assert(self.state() =~= Self::after(old(self).state(), key@, value@));
    }
}

/// Collecting a run appends it.
pub proof fn lemma_collect_all(state: Seq<Entry>, entries: Seq<Entry>)
    ensures
        visit_all::<EntryList>(state, entries) == state + entries,
    decreases entries.len(),
{
    if entries.len() == 0 {
        assert(state + entries =~= state);
    } else {
        lemma_collect_all(state, entries.drop_last());
        assert((state + entries.drop_last()).push(entries.last()) =~= state + entries);
        assert(entries.last() == (entries.last().0, entries.last().1));
    }
}

/// A plain callback visits by being called. What it makes of its calls is its
/// own affair.
impl<F: FnMut(&[u8], &[u8])> EntryVisitor for F {
    type State = ();

    open spec fn ready(&self) -> bool {
        forall|key: &[u8], value: &[u8]| call_requires(*self, (key, value))
    }

    open spec fn state(&self) -> () {
        ()
    }

    open spec fn after(state: (), key: Seq<u8>, value: Seq<u8>) -> () {
        ()
    }

    fn visit(&mut self, key: &[u8], value: &[u8])
        ensures
            call_ensures(*old(self), (key, value), ()),
    {
        self(key, value);
    }
}

/// An owned copy of a byte string.
pub fn copy_bytes(bytes: &[u8]) -> (r: Vec<u8>)
    ensures
        r@ == bytes@,
{
    vstd::slice::slice_to_vec(bytes)
}

/// Owned copies of entries.
pub fn copy_entries(pairs: &Vec<(Vec<u8>, Vec<u8>)>) -> (r: Vec<(Vec<u8>, Vec<u8>)>)
    ensures
        entries_of(r@) == entries_of(pairs@),
        r@.len() == pairs@.len(),
{
    let mut out: Vec<(Vec<u8>, Vec<u8>)> = Vec::with_capacity(pairs.len());
    let mut i: usize = 0;
    while i < pairs.len()
        invariant
            i <= pairs@.len(),
            out@.len() == i,
            entries_of(out@) =~= entries_of(pairs@).take(i as int),
        decreases pairs@.len() - i,
    {
        let ghost before = entries_of(out@);
        out.push((copy_bytes(pairs[i].0.as_slice()), copy_bytes(pairs[i].1.as_slice())));
        assert(entries_of(out@) =~= before.push(entries_of(pairs@)[i as int]));
        i = i + 1;
    }
    assert(entries_of(out@) =~= entries_of(pairs@));
    out
}

/// Appends a byte string.
pub fn append_bytes(out: &mut Vec<u8>, bytes: &[u8])
    ensures
        final(out)@ == old(out)@ + bytes@,
{
    out.extend_from_slice(bytes);
    assert(out@ =~= old(out)@ + bytes@);
}

/// Whether two byte strings are equal.
pub fn same_bytes(a: &[u8], b: &[u8]) -> (r: bool)
    ensures
        r == (a@ == b@),
{
    if a.len() != b.len() {
        return false;
    }
    let mut i: usize = 0;
    while i < a.len()
        invariant
            i <= a.len(),
            a.len() == b.len(),
            forall|j: int| 0 <= j < i ==> a@[j] == b@[j],
        decreases a.len() - i,
    {
        if a[i] != b[i] {
            assert(a@[i as int] != b@[i as int]);
            return false;
        }
        i = i + 1;
    }
    assert(a@ =~= b@);
    true
}

} // verus!
