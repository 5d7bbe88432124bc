//! Reading index blocks.
//!
//! An index block leads from keys to the handles of data blocks. Its entries
//! have no value length: the value is a handle, written in full at a restart
//! point and wherever the key shares nothing with the one before, and
//! otherwise as the signed difference of its size from the size before it. The
//! offset then follows, since blocks stand one behind the other.

use crate::entry::append_bytes;
use crate::error::FormatError;
use crate::format::block::{unless_fault, ParsedBlock};
use crate::format::footer::{BlockHandle, BLOCK_TRAILER_SIZE};
use crate::format::varint::{
    get_varint32, get_varint64, lemma_varint_groups_end, varint32_at, varint64_at,
};
use vstd::prelude::*;
use vstd::slice::slice_subrange;

verus! {

/// One entry of an index block: a key and the handle it leads to.
pub type IndexEntry = (Seq<u8>, BlockHandle);

/// Receives the entries of an index block one at a time, in order.
pub trait HandleVisitor {
    type State;

    /// Whether the visitor can take another entry.
    spec fn ready(&self) -> bool;

    spec fn state(&self) -> Self::State;

    spec fn after(state: Self::State, key: Seq<u8>, handle: BlockHandle) -> Self::State;

    fn visit(&mut self, key: &[u8], handle: BlockHandle)
        requires
            old(self).ready(),
        ensures
            final(self).ready(),
            final(self).state() == Self::after(old(self).state(), key@, handle),
    ;
}

/// What a visitor makes of a run of index entries.
pub open spec fn visit_handles<V: HandleVisitor>(
    state: V::State,
    entries: Seq<IndexEntry>,
) -> V::State
    decreases entries.len(),
{
    if entries.len() == 0 {
        state
    } else {
        V::after(
            visit_handles::<V>(state, entries.drop_last()),
            entries.last().0,
            entries.last().1,
        )
    }
}

/// Collects the handles of an index block.
pub struct HandleList {
    pub handles: Vec<BlockHandle>,
}

impl HandleList {
    pub fn new() -> (r: Self)
        ensures
            r.state() == Seq::<BlockHandle>::empty(),
    {
        HandleList { handles: Vec::new() }
    }
}

impl HandleVisitor for HandleList {
    type State = Seq<BlockHandle>;

    open spec fn ready(&self) -> bool {
        true
    }

    open spec fn state(&self) -> Seq<BlockHandle> {
        self.handles@
    }

    open spec fn after(
        state: Seq<BlockHandle>,
        key: Seq<u8>,
        handle: BlockHandle,
    ) -> Seq<BlockHandle> {
        state.push(handle)
    }

    fn visit(&mut self, key: &[u8], handle: BlockHandle) {
        self.handles.push(handle);
    }
}

/// The handles of some index entries.
pub open spec fn handles_of(entries: Seq<IndexEntry>) -> Seq<BlockHandle> {
    Seq::new(entries.len(), |i: int| entries[i].1)
}

/// Collecting the handles of a run appends them.
pub proof fn lemma_collect_handles(state: Seq<BlockHandle>, entries: Seq<IndexEntry>)
    ensures
        visit_handles::<HandleList>(state, entries) == state + handles_of(entries),
    decreases entries.len(),
{
    if entries.len() == 0 {
        assert(state + handles_of(entries) =~= state);
    } else {
        lemma_collect_handles(state, entries.drop_last());
        assert((state + handles_of(entries.drop_last())).push(entries.last().1) =~= state
            + handles_of(entries));
    }
}

/// A plain callback visits by being called. What it makes of its calls is its
/// own affair.
impl<F: FnMut(&[u8], BlockHandle)> HandleVisitor for F {
    type State = ();

    open spec fn ready(&self) -> bool {
        forall|key: &[u8], handle: BlockHandle| call_requires(*self, (key, handle))
    }

    open spec fn state(&self) -> () {
        ()
    }

    open spec fn after(state: (), key: Seq<u8>, handle: BlockHandle) -> () {
        ()
    }

    fn visit(&mut self, key: &[u8], handle: BlockHandle)
        ensures
            call_ensures(*old(self), (key, handle), ()),
    {
        self(key, handle);
    }
}

/// Signed numbers as unsigned ones: 0, -1, 1, -2, 2 and so on.
pub open spec fn zigzag(v: int) -> int {
    if v >= 0 {
        2 * v
    } else {
        -2 * v - 1
    }
}

/// The signed number that `zigzag` turns into `u`.
pub open spec fn unzigzag(u: u64) -> int {
    if u % 2 == 0 {
        u as int / 2
    } else {
        -(u as int / 2) - 1
    }
}

/// The size of a block as a signed number of 64 bits.
pub open spec fn signed_size(size: u64) -> int {
    if size <= i64::MAX {
        size as int
    } else {
        size - 0x1_0000_0000_0000_0000
    }
}

/// The size that such a number stands for.
pub open spec fn unsigned_size(size: int) -> u64 {
    if size >= 0 {
        size as u64
    } else {
        (size + 0x1_0000_0000_0000_0000) as u64
    }
}

/// The handle of the block behind `prev` whose size differs by `delta`.
pub open spec fn handle_behind(prev: BlockHandle, delta: int) -> Result<BlockHandle, FormatError> {
    let size = signed_size(prev.size) + delta;
    let offset = prev.offset + prev.size + BLOCK_TRAILER_SIZE;
    if !(i64::MIN <= size <= i64::MAX) || offset > u64::MAX {
        Err(FormatError::HandleOverflow)
    } else {
        Ok(BlockHandle { offset: offset as u64, size: unsigned_size(size) })
    }
}

/// The handle at `pos` and the position after it. `full` says whether it is
/// written in full or relative to `prev`.
pub open spec fn index_handle_at(
    data: Seq<u8>,
    pos: int,
    full: bool,
    prev: Option<BlockHandle>,
) -> Result<(BlockHandle, int), FormatError> {
    if full {
        match varint64_at(data, pos) {
            None => Err(FormatError::TruncatedHandleOffset),
            Some((offset, mid)) => match varint64_at(data, mid) {
                None => Err(FormatError::TruncatedHandleSize),
                Some((size, end)) => Ok((BlockHandle { offset, size }, end)),
            },
        }
    } else {
        match prev {
            None => Err(FormatError::NoPreviousHandle),
            Some(prev) => match varint64_at(data, pos) {
                None => Err(FormatError::TruncatedSizeDelta),
                Some((u, end)) => match handle_behind(prev, unzigzag(u)) {
                    Err(e) => Err(e),
                    Ok(handle) => Ok((handle, end)),
                },
            },
        }
    }
}

/// Whether an entry at `pos` starts a restart interval.
pub open spec fn is_restart(restarts: Seq<u32>, pos: int) -> bool {
    exists|i: int| 0 <= i < restarts.len() && #[trigger] restarts[i] as int == pos
}

/// The index entry at `pos` after one with the key `last` and the handle
/// `prev`, with the position that follows it.
pub open spec fn index_entry_at(
    data: Seq<u8>,
    restarts: Seq<u32>,
    pos: int,
    last: Seq<u8>,
    prev: Option<BlockHandle>,
) -> Result<(Seq<u8>, BlockHandle, int), FormatError> {
    match varint32_at(data, pos) {
        None => Err(FormatError::TruncatedShared),
        Some((shared, p1)) => match varint32_at(data, p1) {
            None => Err(FormatError::TruncatedUnshared),
            Some((unshared, p2)) => if shared > last.len() {
                Err(FormatError::SharedExceedsLastKey)
            } else if p2 + unshared > data.len() {
                Err(FormatError::TruncatedKeyDelta)
            } else {
                match index_handle_at(
                    data,
                    p2 + unshared,
                    is_restart(restarts, pos) || shared == 0,
                    prev,
                ) {
                    Err(e) => Err(e),
                    Ok((handle, end)) => Ok(
                        (
                            last.take(shared as int) + data.subrange(p2, p2 + unshared),
                            handle,
                            end,
                        ),
                    ),
                }
            },
        },
    }
}

/// The key of the index entry at `pos`, whatever is wrong with its handle;
/// `None` where its header or its key is broken.
pub open spec fn index_key_at(data: Seq<u8>, pos: int, last: Seq<u8>) -> Option<Seq<u8>> {
    match varint32_at(data, pos) {
        None => None,
        Some((shared, p1)) => match varint32_at(data, p1) {
            None => None,
            Some((unshared, p2)) => if shared > last.len() || p2 + unshared > data.len() {
                None
            } else {
                Some(last.take(shared as int) + data.subrange(p2, p2 + unshared))
            },
        },
    }
}

/// Reading an index entry moves on, and stays inside the data.
pub proof fn lemma_index_entry_at_end(
    data: Seq<u8>,
    restarts: Seq<u32>,
    pos: int,
    last: Seq<u8>,
    prev: Option<BlockHandle>,
)
    ensures
        index_entry_at(data, restarts, pos, last, prev) matches Ok((_, _, next)) ==> pos < next
            <= data.len(),
{
    lemma_varint_groups_end(data, pos, 10);
    if let Some((_, p1)) = varint32_at(data, pos) {
        lemma_varint_groups_end(data, p1, 10);
        if let Some((unshared, p2)) = varint32_at(data, p1) {
            lemma_varint_groups_end(data, p2 + unshared, 10);
            if let Some((_, mid)) = varint64_at(data, p2 + unshared) {
                lemma_varint_groups_end(data, mid, 10);
            }
        }
    }
}

/// The entries of an index block from `pos` on, up to the first that is
/// broken, and what is wrong with that one.
pub open spec fn index_entries_from(
    data: Seq<u8>,
    restarts: Seq<u32>,
    pos: int,
    last: Seq<u8>,
    prev: Option<BlockHandle>,
) -> (Seq<IndexEntry>, Option<FormatError>)
    decreases data.len() - pos,
{
    if pos >= data.len() {
        (Seq::empty(), None)
    } else {
        match index_entry_at(data, restarts, pos, last, prev) {
            Err(e) => (Seq::empty(), Some(e)),
            Ok((key, handle, next)) => {
                proof {
                    lemma_index_entry_at_end(data, restarts, pos, last, prev);
                }
                let rest = index_entries_from(data, restarts, next, key, Some(handle));
                (seq![(key, handle)] + rest.0, rest.1)
            },
        }
    }
}

/// The entries of an index block, up to the first that is broken.
pub open spec fn index_block_entries(data: Seq<u8>, restarts: Seq<u32>) -> (
    Seq<IndexEntry>,
    Option<FormatError>,
) {
    index_entries_from(data, restarts, 0, Seq::empty(), None)
}

/// The last key that can be read from `pos` on: that of the last entry, or that
/// of the first broken one where only its handle is broken; `last` where there
/// is none.
pub open spec fn index_key_left_from(
    data: Seq<u8>,
    restarts: Seq<u32>,
    pos: int,
    last: Seq<u8>,
    prev: Option<BlockHandle>,
) -> Seq<u8>
    decreases data.len() - pos,
{
    if pos >= data.len() {
        last
    } else {
        match index_entry_at(data, restarts, pos, last, prev) {
            Err(_) => match index_key_at(data, pos, last) {
                Some(key) => key,
                None => last,
            },
            Ok((key, handle, next)) => {
                proof {
                    lemma_index_entry_at_end(data, restarts, pos, last, prev);
                }
                index_key_left_from(data, restarts, next, key, Some(handle))
            },
        }
    }
}

/// Without a broken entry, the last key that can be read is that of the last
/// entry.
pub proof fn lemma_index_key_left(
    data: Seq<u8>,
    restarts: Seq<u32>,
    pos: int,
    last: Seq<u8>,
    prev: Option<BlockHandle>,
)
    requires
        index_entries_from(data, restarts, pos, last, prev).1 is None,
    ensures
        index_key_left_from(data, restarts, pos, last, prev) == ({
            let entries = index_entries_from(data, restarts, pos, last, prev).0;
            if entries.len() == 0 {
                last
            } else {
                last_index_key(entries)
            }
        }),
    decreases data.len() - pos,
{
    if pos < data.len() {
        if let Ok((key, handle, next)) = index_entry_at(data, restarts, pos, last, prev) {
            lemma_index_entry_at_end(data, restarts, pos, last, prev);
            lemma_index_key_left(data, restarts, next, key, Some(handle));
            let rest = index_entries_from(data, restarts, next, key, Some(handle)).0;
            if rest.len() > 0 {
                assert((seq![(key, handle)] + rest).last() == rest.last());
            }
        }
    }
}

/// The key of the last of some index entries; empty where there is none.
pub open spec fn last_index_key(entries: Seq<IndexEntry>) -> Seq<u8> {
    if entries.len() == 0 {
        Seq::empty()
    } else {
        entries.last().0
    }
}

/// The handle of the last of some index entries.
pub open spec fn last_index_handle(entries: Seq<IndexEntry>) -> Option<BlockHandle> {
    if entries.len() == 0 {
        None
    } else {
        Some(entries.last().1)
    }
}

/// Restart offsets in ascending order.
fn sorted_restarts(restarts: &[u32]) -> (r: Vec<u32>)
    ensures
        forall|i: int, j: int| 0 <= i <= j < r@.len() ==> r@[i] <= r@[j],
        forall|pos: int| is_restart(r@, pos) == is_restart(restarts@, pos),
{
    let mut sorted: Vec<u32> = Vec::with_capacity(restarts.len());
    let mut n: usize = 0;
    while n < restarts.len()
        invariant
            n <= restarts@.len(),
            sorted@.len() == n,
            forall|i: int, j: int| 0 <= i <= j < n ==> sorted@[i] <= sorted@[j],
            forall|pos: int| is_restart(sorted@, pos) == is_restart(restarts@.take(n as int), pos),
        decreases restarts@.len() - n,
    {
        let x: u32 = restarts[n];
        let mut at: usize = n;
        while at > 0 && sorted[at - 1] > x
            invariant
                at <= n,
                sorted@.len() == n,
                forall|i: int, j: int| 0 <= i <= j < n ==> sorted@[i] <= sorted@[j],
                forall|j: int| at <= j < n ==> sorted@[j] > x,
            decreases at,
        {
            at = at - 1;
        }
        let ghost before = sorted@;
        sorted.insert(at, x);
        proof {
            let upto = restarts@.take(n + 1);
            assert(upto =~= restarts@.take(n as int).push(x));
            assert forall|pos: int| is_restart(sorted@, pos) == is_restart(upto, pos) by {
                if is_restart(sorted@, pos) {
                    let i = choose|i: int|
                        0 <= i < sorted@.len() && #[trigger] sorted@[i] as int == pos;
                    if i == at {
                        assert(upto[n as int] == pos);
                    } else {
                        assert(before[if i < at { i } else { i - 1 }] == pos);
                        assert(is_restart(before, pos));
                        let j = choose|j: int|
                            0 <= j < n && #[trigger] restarts@.take(n as int)[j] as int == pos;
                        assert(upto[j] == pos);
                    }
                }
                if is_restart(upto, pos) {
                    let i = choose|i: int| 0 <= i < upto.len() && #[trigger] upto[i] as int == pos;
                    if i == n {
                        assert(sorted@[at as int] == pos);
                    } else {
                        assert(restarts@.take(n as int)[i] == pos);
                        assert(is_restart(before, pos));
                        let j = choose|j: int| 0 <= j < n && #[trigger] before[j] as int == pos;
                        assert(sorted@[if j < at { j } else { j + 1 }] == pos);
                    }
                }
            }
        }
        n = n + 1;
    }
    assert(restarts@.take(n as int) =~= restarts@);
    sorted
}

/// Looks a position up among sorted restart offsets.
fn find_restart(sorted: &[u32], pos: usize) -> (r: bool)
    requires
        forall|i: int, j: int| 0 <= i <= j < sorted@.len() ==> sorted@[i] <= sorted@[j],
    ensures
        r == is_restart(sorted@, pos as int),
{
    let mut low: usize = 0;
    let mut high: usize = sorted.len();
    while low < high
        invariant
            low <= high <= sorted@.len(),
            forall|i: int, j: int| 0 <= i <= j < sorted@.len() ==> sorted@[i] <= sorted@[j],
            forall|i: int| 0 <= i < low ==> sorted@[i] < pos,
            forall|i: int| high <= i < sorted@.len() ==> sorted@[i] > pos,
        decreases high - low,
    {
        let mid: usize = low + (high - low) / 2;
        let found: u64 = sorted[mid] as u64;
        if found == pos as u64 {
            assert(sorted@[mid as int] as int == pos);
            return true;
        } else if found < pos as u64 {
            low = mid + 1;
        } else {
            high = mid;
        }
    }
    false
}

/// Reads a signed number.
fn get_varsigned64(buf: &[u8], pos: &mut usize) -> (r: Option<i64>)
    ensures
        match varint64_at(buf@, *old(pos) as int) {
            Some((u, end)) => r matches Some(v) && v == unzigzag(u) && *final(pos) == end,
            None => r is None,
        },
{
    match get_varint64(buf, pos) {
        Some(u) => if u % 2 == 0 {
            Some((u / 2) as i64)
        } else {
            Some(-((u / 2) as i64) - 1)
        },
        None => None,
    }
}

/// Computes `handle_behind`.
fn next_handle(prev: BlockHandle, delta: i64) -> (r: Result<BlockHandle, FormatError>)
    ensures
        r == handle_behind(prev, delta as int),
{
    let signed: i128 = if prev.size <= i64::MAX as u64 {
        prev.size as i128
    } else {
        prev.size as i128 - 0x1_0000_0000_0000_0000
    };
    let size: i128 = signed + delta as i128;
    let offset: u128 = prev.offset as u128 + prev.size as u128 + BLOCK_TRAILER_SIZE as u128;
    if size < i64::MIN as i128 || size > i64::MAX as i128 || offset > u64::MAX as u128 {
        return Err(FormatError::HandleOverflow);
    }
    let unsigned: u64 = if size >= 0 {
        size as u64
    } else {
        (size + 0x1_0000_0000_0000_0000) as u64
    };
    Ok(BlockHandle { offset: offset as u64, size: unsigned })
}

/// Reads the handle of an index entry.
fn decode_index_handle(
    data: &[u8],
    pos: usize,
    full: bool,
    prev: Option<BlockHandle>,
) -> (r: Result<(BlockHandle, usize), FormatError>)
    ensures
        match index_handle_at(data@, pos as int, full, prev) {
            Ok((handle, end)) => r matches Ok((h, e)) && h == handle && e == end,
            Err(e) => r matches Err(f) && f == e,
        },
{
    let mut p: usize = pos;
    if full {
        let offset: u64 = match get_varint64(data, &mut p) {
            Some(v) => v,
            None => {
                return Err(FormatError::TruncatedHandleOffset);
            },
        };
        let size: u64 = match get_varint64(data, &mut p) {
            Some(v) => v,
            None => {
                return Err(FormatError::TruncatedHandleSize);
            },
        };
        Ok((BlockHandle { offset, size }, p))
    } else {
        let prev = match prev {
            Some(handle) => handle,
            None => {
                return Err(FormatError::NoPreviousHandle);
            },
        };
        let delta: i64 = match get_varsigned64(data, &mut p) {
            Some(v) => v,
            None => {
                return Err(FormatError::TruncatedSizeDelta);
            },
        };
        match next_handle(prev, delta) {
            Ok(handle) => Ok((handle, p)),
            Err(e) => Err(e),
        }
    }
}

/// Where the parts of an index entry are.
struct IndexEntryParts {
    /// How many bytes of the key before it are shared.
    shared: usize,
    /// Where the rest of the key starts.
    delta: usize,
    /// Where the handle starts.
    value: usize,
}

/// Finds the parts of the index entry at `pos`, down to its key.
fn decode_index_key(data: &[u8], pos: usize, last: &[u8]) -> (r: Result<
    IndexEntryParts,
    FormatError,
>)
    ensures
        match index_key_at(data@, pos as int, last@) {
            None => {
                &&& r matches Err(f)
                &&& forall|restarts: Seq<u32>, prev: Option<BlockHandle>|
                    (#[trigger] index_entry_at(data@, restarts, pos as int, last@, prev)) == Err::<
                        (Seq<u8>, BlockHandle, int),
                        FormatError,
                    >(f)
            },
            Some(key) => {
                &&& r matches Ok(parts)
                &&& parts.shared <= last@.len()
                &&& parts.delta <= parts.value <= data@.len()
                &&& key == last@.take(parts.shared as int) + data@.subrange(
                    parts.delta as int,
                    parts.value as int,
                )
                &&& forall|restarts: Seq<u32>, prev: Option<BlockHandle>|
                    (#[trigger] index_entry_at(data@, restarts, pos as int, last@, prev))
                        == match index_handle_at(
                        data@,
                        parts.value as int,
                        is_restart(restarts, pos as int) || parts.shared == 0,
                        prev,
                    ) {
                        Err(e) => Err(e),
                        Ok((handle, end)) => Ok((key, handle, end)),
                    }
            },
        },
{
    proof {
        lemma_varint_groups_end(data@, pos as int, 10);
    }
    let mut p: usize = pos;
    let shared: u32 = match get_varint32(data, &mut p) {
        Some(v) => v,
        None => {
            return Err(FormatError::TruncatedShared);
        },
    };
    proof {
        lemma_varint_groups_end(data@, p as int, 10);
    }
    let unshared: u32 = match get_varint32(data, &mut p) {
        Some(v) => v,
        None => {
            return Err(FormatError::TruncatedUnshared);
        },
    };
    if shared as u64 > last.len() as u64 {
        return Err(FormatError::SharedExceedsLastKey);
    }
    if unshared as u64 > (data.len() - p) as u64 {
        return Err(FormatError::TruncatedKeyDelta);
    }
    Ok(IndexEntryParts { shared: shared as usize, delta: p, value: p + unshared as usize })
}

/// Visits the entries of an index block in order. `key_scratch` is a buffer
/// for keys that the caller may reuse; the last key that was read is left in
/// it.
pub fn for_each_index_entry<V: HandleVisitor>(
    block: &ParsedBlock,
    key_scratch: &mut Vec<u8>,
    f: &mut V,
) -> (r: Result<(), FormatError>)
    requires
        block.wf(),
        old(f).ready(),
    ensures
        ({
            let found = index_block_entries(block.entry_bytes(), block.restarts@);
            &&& final(f).ready()
            &&& final(f).state() == visit_handles::<V>(old(f).state(), found.0)
            &&& r == unless_fault(found.1)
            &&& final(key_scratch)@ == index_key_left_from(
                block.entry_bytes(),
                block.restarts@,
                0,
                Seq::empty(),
                None,
            )
            &&& r is Ok ==> final(key_scratch)@ == last_index_key(found.0)
        }),
{
    let entries_end: usize = block.contents.len() - 4 - block.restarts.len() * 4;
    let data = slice_subrange(block.contents.as_slice(), 0, entries_end);
    assert(data@ =~= block.entry_bytes());
    let sorted = sorted_restarts(block.restarts.as_slice());
    key_scratch.clear();
    let mut pos: usize = 0;
    let mut last_handle: Option<BlockHandle> = None;
    let ghost mut seen = Seq::<IndexEntry>::empty();
    let ghost restarts = block.restarts@;
    let ghost all = index_block_entries(data@, restarts);
    assert(seen + all.0 =~= all.0);
    while pos < data.len()
        invariant
            pos <= data@.len(),
            f.ready(),
            all == index_block_entries(data@, restarts),
            f.state() == visit_handles::<V>(old(f).state(), seen),
            index_key_left_from(data@, restarts, pos as int, key_scratch@, last_handle)
                == index_key_left_from(data@, restarts, 0, Seq::empty(), None),
            all.0 == seen + index_entries_from(
                data@,
                restarts,
                pos as int,
                key_scratch@,
                last_handle,
            ).0,
            all.1 == index_entries_from(data@, restarts, pos as int, key_scratch@, last_handle).1,
            data@ == block.entry_bytes(),
            restarts == block.restarts@,
            forall|i: int, j: int| 0 <= i <= j < sorted@.len() ==> sorted@[i] <= sorted@[j],
            forall|p: int| is_restart(sorted@, p) == is_restart(restarts, p),
        decreases data.len() - pos,
    {
        let ghost rest = index_entries_from(
            data@,
            restarts,
            pos as int,
            key_scratch@,
            last_handle,
        );
        proof {
            lemma_index_entry_at_end(data@, restarts, pos as int, key_scratch@, last_handle);
            assert(index_entry_at(data@, restarts, pos as int, key_scratch@, last_handle) is Err
                ==> all.0 =~= seen);
        }
        let at_restart = find_restart(sorted.as_slice(), pos);
        let parts = match decode_index_key(data, pos, key_scratch.as_slice()) {
            Err(e) => {
                return Err(e);
            },
            Ok(parts) => parts,
        };
        let ghost last = key_scratch@;
        key_scratch.truncate(parts.shared);
        append_bytes(key_scratch, slice_subrange(data, parts.delta, parts.value));
        proof {
            assert(last.take(parts.shared as int) =~= last.subrange(0, parts.shared as int));
            assert(at_restart == is_restart(restarts, pos as int));
        }
        let full = at_restart || parts.shared == 0;
        let (handle, end) = match decode_index_handle(data, parts.value, full, last_handle) {
            Err(e) => {
                return Err(e);
            },
            Ok(found) => found,
        };
        last_handle = Some(handle);
        f.visit(key_scratch.as_slice(), handle);
        proof {
            let entry = (key_scratch@, handle);
            assert(seen.push(entry).drop_last() =~= seen);
            assert(seen.push(entry) + index_entries_from(
                data@,
                restarts,
                end as int,
                entry.0,
                Some(entry.1),
            ).0 =~= seen + rest.0);
            seen = seen.push(entry);
        }
        pos = end;
    }
    assert(all.0 =~= seen);
    proof {
        lemma_index_key_left(data@, restarts, 0, Seq::empty(), None);
    }
    Ok(())
}

} // verus!
