//! Sorted inputs of a merge.

use crate::entry::{
    append_bytes, copy_entries, entries_of, key_bytes, lemma_bytes_monotonic, lemma_bytes_of_one,
    lemma_bytes_push, value_bytes, weight, Entry,
};
use crate::format::block_builder::lengths_fit;
use crate::format::internal_key::{is_internal_key, user_part, NUM_INTERNAL_BYTES};
use crate::merge::cmp::{bytes_before, lemma_bytes_order, user_key_before};
use std::sync::Arc;
use vstd::prelude::*;
use vstd::slice::slice_subrange;

verus! {

/// One input of a merge: entries that are handed out from the front.
pub trait MergeSource {
    /// What holds between calls.
    spec fn inv(&self) -> bool;

    /// The entries that are still to come.
    spec fn remaining(&self) -> Seq<Entry>;

    /// The entry at the front.
    fn peek(&self) -> (r: Option<(&[u8], &[u8])>)
        requires
            self.inv(),
        ensures
            match r {
                Some((key, value)) => self.remaining().len() > 0 && self.remaining()[0] == (
                    key@,
                    value@,
                ),
                None => self.remaining().len() == 0,
            },
    ;

    /// Drops the entry at the front.
    fn advance(&mut self)
        requires
            old(self).inv(),
            old(self).remaining().len() > 0,
        ensures
            final(self).inv(),
            final(self).remaining() == old(self).remaining().drop_first(),
    ;
}

/// Owned entries as an input.
pub struct VecSource {
    entries: Vec<(Vec<u8>, Vec<u8>)>,
    pos: usize,
}

impl VecSource {
    /// `entries` have to be in the order that the merge goes by.
    pub fn new(entries: Vec<(Vec<u8>, Vec<u8>)>) -> (r: Self)
        ensures
            r.inv(),
            r.remaining() == entries_of(entries@),
    {
        let r = VecSource { entries, pos: 0 };
        assert(r.remaining() =~= entries_of(entries@));
        r
    }
}

impl MergeSource for VecSource {
    closed spec fn inv(&self) -> bool {
        self.pos <= self.entries@.len()
    }

    closed spec fn remaining(&self) -> Seq<Entry> {
        entries_of(self.entries@).skip(self.pos as int)
    }

    fn peek(&self) -> (r: Option<(&[u8], &[u8])>) {
        if self.pos < self.entries.len() {
            let entry = &self.entries[self.pos];
            Some((entry.0.as_slice(), entry.1.as_slice()))
        } else {
            None
        }
    }

    fn advance(&mut self) {
        assert(self.pos < self.entries.len());
        self.pos = self.pos + 1;
        assert(self.remaining() =~= old(self).remaining().drop_first());
    }
}

impl Clone for VecSource {
    fn clone(&self) -> (r: Self)
        ensures
            self.inv() ==> r.inv(),
            r.remaining() == self.remaining(),
    {
        VecSource { entries: copy_entries(&self.entries), pos: self.pos }
    }
}

/// Where the key and the value of an entry are in an arena.
#[derive(Clone, Copy)]
pub struct EntrySpan {
    key_off: u32,
    key_len: u32,
    val_off: u32,
    val_len: u32,
}

impl EntrySpan {
    spec fn inside(self, arena: Seq<u8>) -> bool {
        &&& self.key_off + self.key_len <= arena.len() <= u32::MAX
        &&& self.val_off + self.val_len <= arena.len()
    }

    spec fn entry(self, arena: Seq<u8>) -> Entry {
        (
            arena.subrange(self.key_off as int, self.key_off + self.key_len),
            arena.subrange(self.val_off as int, self.val_off + self.val_len),
        )
    }
}

/// The entries that spans of an arena hold.
spec fn arena_entries(arena: Seq<u8>, spans: Seq<EntrySpan>) -> Seq<Entry> {
    Seq::new(spans.len(), |i: int| spans[i].entry(arena))
}

spec fn spans_inside(arena: Seq<u8>, spans: Seq<EntrySpan>) -> bool {
    forall|i: int| 0 <= i < spans.len() ==> (#[trigger] spans[i]).inside(arena)
}

/// Entries whose bytes stand one behind the other in one buffer, as an input.
/// A shard is a window on the entries; the buffer is shared.
pub struct ArenaSource {
    arena: Arc<Vec<u8>>,
    spans: Arc<Vec<EntrySpan>>,
    pos: usize,
    end: usize,
}

/// Whether user keys ascend, as they do in a sorted input.
pub open spec fn user_keys_ascend(entries: Seq<Entry>) -> bool {
    forall|i: int, j: int|
        0 <= i <= j < entries.len() ==> !bytes_before(
            user_part(#[trigger] entries[j].0),
            user_part(#[trigger] entries[i].0),
        )
}

/// Whether all keys are internal keys.
pub open spec fn all_internal(entries: Seq<Entry>) -> bool {
    forall|i: int| 0 <= i < entries.len() ==> is_internal_key(#[trigger] entries[i].0)
}

/// Whether one source can address the bytes of some entries.
pub open spec fn fits_arena(entries: Seq<Entry>) -> bool {
    key_bytes(entries) + value_bytes(entries) <= u32::MAX
}

/// Entries that fit one source have short keys and values.
pub proof fn lemma_fits_arena(entries: Seq<Entry>)
    requires
        fits_arena(entries),
    ensures
        lengths_fit(entries),
{
    assert forall|i: int| 0 <= i < entries.len() implies #[trigger] entries[i].0.len()
        <= u32::MAX && entries[i].1.len() <= u32::MAX by {
        lemma_bytes_of_one(entries, i);
    }
}

impl ArenaSource {
    /// All entries, also those outside the window.
    pub closed spec fn entries(&self) -> Seq<Entry> {
        arena_entries(self.arena@, self.spans@)
    }

    /// The keys and values of a source are short: all of their bytes together
    /// can be addressed with 32 bits.
    pub proof fn lemma_short_entries(&self)
        requires
            self.inv(),
        ensures
            fits_arena(self.entries()),
            lengths_fit(self.entries()),
            lengths_fit(self.remaining()),
    {
        let entries = self.entries();
        lemma_fits_arena(entries);
        assert forall|i: int| 0 <= i < self.remaining().len() implies #[trigger]
        self.remaining()[i].0.len() <= u32::MAX && self.remaining()[i].1.len() <= u32::MAX by {
            assert(self.remaining()[i] == entries[self.pos + i]);
        }
    }

    fn key(&self, span: &EntrySpan) -> (r: &[u8])
        requires
            span.inside(self.arena@),
        ensures
            r@ == span.entry(self.arena@).0,
    {
        slice_subrange(
            self.arena.as_slice(),
            span.key_off as usize,
            (span.key_off + span.key_len) as usize,
        )
    }

    fn val(&self, span: &EntrySpan) -> (r: &[u8])
        requires
            span.inside(self.arena@),
        ensures
            r@ == span.entry(self.arena@).1,
    {
        slice_subrange(
            self.arena.as_slice(),
            span.val_off as usize,
            (span.val_off + span.val_len) as usize,
        )
    }

    /// How many entries are still to come.
    pub fn len(&self) -> (r: usize)
        requires
            self.inv(),
        ensures
            r == self.remaining().len(),
    {
        if self.pos < self.end {
            self.end - self.pos
        } else {
            0
        }
    }

    /// The window from entry `start` up to entry `end_idx`, counted from the
    /// first entry of the source that was built.
    pub fn shard(&self, start: usize, end_idx: usize) -> (r: ArenaSource)
        requires
            self.inv(),
            start <= end_idx <= self.entries().len(),
        ensures
            r.inv(),
            r.entries() == self.entries(),
            r.remaining() == self.entries().subrange(start as int, end_idx as int),
    {
        let r = ArenaSource {
            arena: self.arena.clone(),
            spans: self.spans.clone(),
            pos: start,
            end: end_idx,
        };
        assert(r.remaining() =~= self.entries().subrange(start as int, end_idx as int));
        r
    }

    /// How many entries there are, also outside the window.
    pub fn total_len(&self) -> (r: usize)
        requires
            self.inv(),
        ensures
            r == self.entries().len(),
    {
        self.spans.len()
    }

    /// The key of entry `i`, counted from the first.
    pub fn key_at(&self, i: usize) -> (r: &[u8])
        requires
            self.inv(),
            i < self.entries().len(),
        ensures
            r@ == self.entries()[i as int].0,
    {
        self.key(&self.spans[i])
    }

    /// How many entries have a user key that comes before the one of
    /// `boundary_key`. In a source whose user keys ascend these are the first
    /// ones.
    pub fn lower_bound(&self, boundary_key: &[u8]) -> (r: usize)
        requires
            self.inv(),
            all_internal(self.entries()),
            is_internal_key(boundary_key@),
        ensures
            r <= self.entries().len(),
            user_keys_ascend(self.entries()) ==> {
                &&& forall|i: int|
                    0 <= i < r ==> bytes_before(
                        user_part(#[trigger] self.entries()[i].0),
                        user_part(boundary_key@),
                    )
                &&& forall|i: int|
                    r <= i < self.entries().len() ==> !bytes_before(
                        user_part(#[trigger] self.entries()[i].0),
                        user_part(boundary_key@),
                    )
            },
    {
        let ghost entries = self.entries();
        let ghost boundary = user_part(boundary_key@);
        let mut low: usize = 0;
        let mut high: usize = self.spans.len();
        while low < high
            invariant
                self.inv(),
                all_internal(self.entries()),
                is_internal_key(boundary_key@),
                entries == self.entries(),
                boundary == user_part(boundary_key@),
                low <= high <= entries.len(),
                user_keys_ascend(entries) ==> forall|i: int|
                    0 <= i < low ==> bytes_before(user_part(#[trigger] entries[i].0), boundary),
                user_keys_ascend(entries) ==> forall|i: int|
                    high <= i < entries.len() ==> !bytes_before(
                        user_part(#[trigger] entries[i].0),
                        boundary,
                    ),
            decreases high - low,
        {
            let mid: usize = low + (high - low) / 2;
            assert(is_internal_key(entries[mid as int].0));
            if user_key_before(self.key_at(mid), boundary_key) {
                proof {
                    if user_keys_ascend(entries) {
                        assert forall|i: int| 0 <= i < mid + 1 implies bytes_before(
                            user_part(#[trigger] entries[i].0),
                            boundary,
                        ) by {
                            lemma_not_after(
                                user_part(entries[i].0),
                                user_part(entries[mid as int].0),
                                boundary,
                            );
                        }
                    }
                }
                low = mid + 1;
            } else {
                proof {
                    if user_keys_ascend(entries) {
                        assert forall|i: int| mid <= i < entries.len() implies !bytes_before(
                            user_part(#[trigger] entries[i].0),
                            boundary,
                        ) by {
                            if bytes_before(user_part(entries[i].0), boundary) {
                                lemma_not_after(
                                    user_part(entries[mid as int].0),
                                    user_part(entries[i].0),
                                    boundary,
                                );
                            }
                        }
                    }
                }
                high = mid;
            }
        }
        low
    }

    /// Whether every key that is still to come is an internal key.
    pub fn has_internal_keys(&self) -> (r: bool)
        requires
            self.inv(),
        ensures
            r == all_internal(self.remaining()),
    {
        let ghost left = self.remaining();
        let mut i: usize = self.pos;
        while i < self.end
            invariant
                self.inv(),
                left == self.remaining(),
                self.pos <= i,
                self.pos < self.end ==> i <= self.end,
                all_internal(left.take(i - self.pos)),
                self.pos < self.end ==> left.len() == self.end - self.pos,
            decreases self.end - i,
        {
            let key = self.key(&self.spans[i]);
            let ghost at = i - self.pos;
            assert(key@ == left[at].0);
            if key.len() < NUM_INTERNAL_BYTES {
                assert(!is_internal_key(left[at].0));
                return false;
            }
            assert(left.take(at + 1) =~= left.take(at).push(left[at]));
            i = i + 1;
        }
        assert(left.take(left.len() as int) =~= left);
        true
    }

    /// What is left of `room` when the entries that are still to come have
    /// taken what they weigh.
    pub fn room_left(&self, room: usize) -> (r: Option<usize>)
        requires
            self.inv(),
        ensures
            match r {
                Some(left) => left + weight(self.remaining()) == room,
                None => weight(self.remaining()) > room,
            },
    {
        let ghost entries = self.remaining();
        let mut left: usize = room;
        let mut i: usize = self.pos;
        while i < self.end
            invariant
                self.inv(),
                entries == self.remaining(),
                self.pos <= i,
                self.pos < self.end ==> i <= self.end,
                self.pos < self.end ==> entries.len() == self.end - self.pos,
                self.pos >= self.end ==> i == self.pos,
                left + weight(entries.take(i - self.pos)) == room,
            decreases self.end - i,
        {
            let span = &self.spans[i];
            let ghost at = i - self.pos;
            proof {
                let next = entries.take(at + 1);
                assert(next =~= entries.take(at).push(entries[at]));
                lemma_bytes_push(entries.take(at), entries[at]);
                lemma_bytes_monotonic(entries, at + 1);
            }
            let needed: u64 = span.key_len as u64 + span.val_len as u64 + 19;
            assert(needed == entries[at].0.len() + entries[at].1.len() + 19);
            if needed > left as u64 {
                return None;
            }
            left = left - needed as usize;
            i = i + 1;
        }
        assert(entries.take(entries.len() as int) =~= entries);
        Some(left)
    }

    /// Whether the user keys of all entries ascend.
    pub fn has_sorted_user_keys(&self) -> (r: bool)
        requires
            self.inv(),
            all_internal(self.entries()),
        ensures
            r == user_keys_ascend(self.entries()),
    {
        let ghost entries = self.entries();
        let mut i: usize = 1;
        while i < self.spans.len()
            invariant
                self.inv(),
                entries == self.entries(),
                entries.len() == self.spans@.len(),
                all_internal(entries),
                1 <= i,
                i <= entries.len() || i == 1,
                forall|a: int, b: int|
                    0 <= a <= b < i && b < entries.len() ==> !bytes_before(
                        user_part(#[trigger] entries[b].0),
                        user_part(#[trigger] entries[a].0),
                    ),
            decreases entries.len() - i,
        {
            assert(is_internal_key(entries[i - 1].0) && is_internal_key(entries[i as int].0));
            if user_key_before(self.key_at(i), self.key_at(i - 1)) {
                return false;
            }
            assert forall|a: int, b: int| 0 <= a <= b < i + 1 && b < entries.len() implies
                !bytes_before(
                user_part(#[trigger] entries[b].0),
                user_part(#[trigger] entries[a].0),
            ) by {
                let x = user_part(entries[a].0);
                let y = user_part(entries[i - 1].0);
                let z = user_part(entries[i as int].0);
                lemma_bytes_order(z, x, y);
                if b == i && a < i {
                    assert(!bytes_before(y, x));
                    lemma_bytes_order(x, y, z);
                }
            }
            i = i + 1;
        }
        proof {
            if entries.len() == 1 {
                lemma_bytes_order(
                    user_part(entries[0].0),
                    user_part(entries[0].0),
                    user_part(entries[0].0),
                );
            }
        }
        true
    }
}

/// What is not behind something that comes before `c` comes before `c` too.
proof fn lemma_not_after(a: Seq<u8>, b: Seq<u8>, c: Seq<u8>)
    requires
        !bytes_before(b, a),
        bytes_before(b, c),
    ensures
        bytes_before(a, c),
{
    lemma_bytes_order(a, b, c);
}

impl MergeSource for ArenaSource {
    closed spec fn inv(&self) -> bool {
        &&& self.end <= self.spans@.len()
        &&& spans_inside(self.arena@, self.spans@)
        &&& fits_arena(self.entries())
    }

    closed spec fn remaining(&self) -> Seq<Entry> {
        if self.pos < self.end {
            self.entries().subrange(self.pos as int, self.end as int)
        } else {
            Seq::empty()
        }
    }

    fn peek(&self) -> (r: Option<(&[u8], &[u8])>) {
        if self.pos >= self.end {
            return None;
        }
        let span = &self.spans[self.pos];
        Some((self.key(span), self.val(span)))
    }

    fn advance(&mut self) {
        self.pos = self.pos + 1;
        assert(self.remaining() =~= old(self).remaining().drop_first());
    }
}

/// Puts an `ArenaSource` together. Entries have to be pushed in the order that
/// the merge goes by.
pub struct ArenaSourceBuilder {
    arena: Vec<u8>,
    spans: Vec<EntrySpan>,
}

impl ArenaSourceBuilder {
    /// What holds between calls.
    pub closed spec fn inv(&self) -> bool {
        &&& self.arena@.len() <= u32::MAX
        &&& self.arena@.len() == key_bytes(self.entries()) + value_bytes(self.entries())
        &&& spans_inside(self.arena@, self.spans@)
    }

    /// The entries pushed so far.
    pub closed spec fn entries(&self) -> Seq<Entry> {
        arena_entries(self.arena@, self.spans@)
    }

    pub fn new() -> (r: Self)
        ensures
            r.inv(),
            r.entries() == Seq::<Entry>::empty(),
    {
        let r = ArenaSourceBuilder { arena: Vec::new(), spans: Vec::new() };
        assert(r.entries() =~= Seq::<Entry>::empty());
        r
    }

    /// A builder with room for so many entries, which are addressed with sixteen
    /// bytes each, and so many bytes.
    pub fn with_capacity(entries_hint: usize, bytes_hint: usize) -> (r: Self)
        requires
            entries_hint * 16 <= isize::MAX,
            bytes_hint <= isize::MAX,
        ensures
            r.inv(),
            r.entries() == Seq::<Entry>::empty(),
    {
        let r = ArenaSourceBuilder {
            arena: Vec::with_capacity(bytes_hint),
            spans: Vec::with_capacity(entries_hint),
        };
        assert(r.entries() =~= Seq::<Entry>::empty());
        r
    }

    /// Whether an entry of these lengths can still be addressed.
    pub fn has_room(&self, key: &[u8], value: &[u8]) -> (r: bool)
        requires
            self.inv(),
        ensures
            r == (key_bytes(self.entries()) + value_bytes(self.entries()) + key@.len()
                + value@.len() <= u32::MAX),
    {
        let free: u64 = 0xffff_ffff - self.arena.len() as u64;
        key.len() as u64 <= free && value.len() as u64 <= free - key.len() as u64
    }

    pub fn push(&mut self, key: &[u8], value: &[u8])
        requires
            old(self).inv(),
            key_bytes(old(self).entries()) + value_bytes(old(self).entries()) + key@.len()
                + value@.len() <= u32::MAX,
        ensures
            final(self).inv(),
            final(self).entries() == old(self).entries().push((key@, value@)),
    {
        let ghost before = self.arena@;
        let ghost spans = self.spans@;
        let key_off: u32 = self.arena.len() as u32;
        append_bytes(&mut self.arena, key);
        let val_off: u32 = self.arena.len() as u32;
        append_bytes(&mut self.arena, value);
        let span = EntrySpan {
            key_off,
            key_len: key.len() as u32,
            val_off,
            val_len: value.len() as u32,
        };
        self.spans.push(span);
        proof {
            let arena = self.arena@;
            assert(span.entry(arena).0 =~= key@);
            assert(span.entry(arena).1 =~= value@);
            assert forall|i: int| 0 <= i < self.spans@.len() implies (
            #[trigger] self.spans@[i]).inside(arena) by {
                if i < spans.len() {
                    assert(spans[i].inside(before));
                }
            }
            assert forall|i: int| 0 <= i < spans.len() implies spans[i].entry(arena)
                == spans[i].entry(before) by {
                assert(spans[i].inside(before));
                assert(spans[i].entry(arena).0 =~= spans[i].entry(before).0);
                assert(spans[i].entry(arena).1 =~= spans[i].entry(before).1);
            }
            assert(self.entries() =~= old(self).entries().push((key@, value@)));
            lemma_bytes_push(old(self).entries(), (key@, value@));
        }
    }

    pub fn build(self) -> (r: ArenaSource)
        requires
            self.inv(),
        ensures
            r.inv(),
            r.entries() == self.entries(),
            r.remaining() == self.entries(),
    {
        let end: usize = self.spans.len();
        let r = ArenaSource {
            arena: Arc::new(self.arena),
            spans: Arc::new(self.spans),
            pos: 0,
            end,
        };
        assert(r.remaining() =~= self.entries());
        r
    }
}

impl Default for ArenaSourceBuilder {
    fn default() -> (r: Self)
        ensures
            r.inv(),
            r.entries() == Seq::<Entry>::empty(),
    {
        Self::new()
    }
}

} // verus!
