//! Writing data and index blocks.

use crate::entry::{append_bytes, key_bytes, lemma_bytes_push, value_bytes, weight, Entry};
use crate::error::FormatError;
use crate::format::block::{
    block_entries, entries_from, entry_at, last_key, parsed, restart_array, restart_count,
};
use crate::format::footer::{BlockHandle, BLOCK_TRAILER_SIZE};
use crate::format::index::{
    handle_behind, index_block_entries, index_entries_from, index_entry_at, is_restart,
    last_index_handle, last_index_key, signed_size, unzigzag, zigzag, IndexEntry,
};
use crate::format::varint::{
    lemma_varint32_round_trip, lemma_varint64_round_trip, lemma_varint_len, put_varint32,
    put_varint64, varint,
};
use crate::merge::cmp::{common_prefix_len, lemma_common_prefix, shared_prefix_len};
use vstd::arithmetic::div_mod::{lemma_fundamental_div_mod, lemma_fundamental_div_mod_converse};
use vstd::bytes::*;
use vstd::prelude::*;
use vstd::slice::slice_subrange;

verus! {

/// How many entries a restart interval has unless another number is asked for.
pub const DEFAULT_RESTART_INTERVAL: usize = 16;

/// Byte strings one behind the other.
pub open spec fn joined(pieces: Seq<Seq<u8>>) -> Seq<u8>
    decreases pieces.len(),
{
    if pieces.len() == 0 {
        Seq::empty()
    } else {
        joined(pieces.drop_last()) + pieces.last()
    }
}

/// Where piece `k` of some joined pieces starts.
pub open spec fn piece_start(pieces: Seq<Seq<u8>>, k: int) -> int {
    joined(pieces.take(k)).len() as int
}

/// The restart array of a block: zero, then the offset of every entry whose
/// number is another multiple of the interval.
pub open spec fn restart_offsets(interval: int, pieces: Seq<Seq<u8>>) -> Seq<u32>
    decreases pieces.len(),
{
    if pieces.len() <= 1 {
        seq![0u32]
    } else {
        let before = restart_offsets(interval, pieces.drop_last());
        if (pieces.len() - 1) % interval == 0 {
            before.push(joined(pieces.drop_last()).len() as u32)
        } else {
            before
        }
    }
}

/// Numbers of 32 bits one behind the other.
pub open spec fn number_bytes(numbers: Seq<u32>) -> Seq<u8>
    decreases numbers.len(),
{
    if numbers.len() == 0 {
        Seq::empty()
    } else {
        number_bytes(numbers.drop_last()) + spec_u32_to_le_bytes(numbers.last())
    }
}

/// Entry bytes, then the restart array, then its length.
pub open spec fn sealed(entry_bytes: Seq<u8>, restarts: Seq<u32>) -> Seq<u8> {
    entry_bytes + number_bytes(restarts) + spec_u32_to_le_bytes(restarts.len() as u32)
}

/// How many bytes key `i` shares with the one before it: none at the start of
/// a restart interval, else as many as the two have in common.
pub open spec fn shared_len(interval: int, last: Seq<u8>, key: Seq<u8>, i: int) -> int {
    if i % interval == 0 {
        0
    } else {
        common_prefix_len(last, key) as int
    }
}

/// The bytes of a data entry that shares `shared` bytes with the key before.
pub open spec fn entry_piece(shared: int, key: Seq<u8>, value: Seq<u8>) -> Seq<u8> {
    varint(shared as u32 as nat) + varint((key.len() - shared) as u32 as nat) + varint(
        value.len() as u32 as nat,
    ) + key.skip(shared) + value
}

/// The bytes of each entry of a data block.
pub open spec fn entry_pieces(interval: int, entries: Seq<Entry>) -> Seq<Seq<u8>> {
    Seq::new(
        entries.len(),
        |i: int|
            entry_piece(
                shared_len(interval, entries[i - 1].0, entries[i].0, i),
                entries[i].0,
                entries[i].1,
            ),
    )
}

/// A data block that holds `entries`.
pub open spec fn data_block(interval: int, entries: Seq<Entry>) -> Seq<u8> {
    let pieces = entry_pieces(interval, entries);
    sealed(joined(pieces), restart_offsets(interval, pieces))
}

/// Whether the handle of an index entry can be given by the difference of its
/// size from the one before.
pub open spec fn size_delta_fits(prev: BlockHandle, handle: BlockHandle) -> bool {
    i64::MIN <= signed_size(handle.size) - signed_size(prev.size) <= i64::MAX
}

/// The bytes of a handle: in full, or relative to the one before.
pub open spec fn handle_piece(full: bool, prev: BlockHandle, handle: BlockHandle) -> Seq<u8> {
    if full {
        varint(handle.offset as nat) + varint(handle.size as nat)
    } else {
        varint(zigzag(signed_size(handle.size) - signed_size(prev.size)) as nat)
    }
}

/// The bytes of an index entry that shares `shared` bytes with the key before.
pub open spec fn index_piece(
    shared: int,
    key: Seq<u8>,
    prev: BlockHandle,
    handle: BlockHandle,
) -> Seq<u8> {
    varint(shared as u32 as nat) + varint((key.len() - shared) as u32 as nat) + key.skip(shared)
        + handle_piece(shared == 0, prev, handle)
}

/// The bytes of each entry of an index block.
pub open spec fn index_pieces(interval: int, entries: Seq<IndexEntry>) -> Seq<Seq<u8>> {
    Seq::new(
        entries.len(),
        |i: int|
            index_piece(
                shared_len(interval, entries[i - 1].0, entries[i].0, i),
                entries[i].0,
                entries[i - 1].1,
                entries[i].1,
            ),
    )
}

/// An index block that holds `entries`.
pub open spec fn index_block(interval: int, entries: Seq<IndexEntry>) -> Seq<u8> {
    let pieces = index_pieces(interval, entries);
    sealed(joined(pieces), restart_offsets(interval, pieces))
}

/// How many entries the open restart interval has after `n` entries.
spec fn since_restart(interval: int, n: nat) -> int {
    if n == 0 {
        0
    } else {
        (n - 1) % interval + 1
    }
}

proof fn lemma_since_restart(interval: int, n: nat)
    requires
        interval >= 1,
    ensures
        0 <= since_restart(interval, n) <= interval,
        n > 0 ==> (since_restart(interval, n) == interval <==> n as int % interval == 0),
        n > 0 && n as int % interval != 0 ==> n as int % interval == since_restart(interval, n),
        n == 0 ==> n as int % interval == 0,
{
    if n > 0 {
        let q = (n - 1) / interval;
        let r = (n - 1) % interval;
        lemma_fundamental_div_mod(n - 1, interval);
        assert(0 <= r < interval) by (nonlinear_arith)
            requires
                r == (n - 1) % interval,
                interval >= 1,
        ;
        if r + 1 < interval {
            lemma_fundamental_div_mod_converse(n as int, interval, q, r + 1);
        } else {
            assert(n == interval * (q + 1) + 0) by (nonlinear_arith)
                requires
                    n - 1 == interval * q + r,
                    r + 1 == interval,
            ;
            lemma_fundamental_div_mod_converse(n as int, interval, q + 1, 0);
        }
    } else {
        lemma_fundamental_div_mod_converse(0, interval, 0, 0);
    }
}

/// One more entry is one more piece.
proof fn lemma_entry_pieces_push(
    interval: int,
    before: Seq<Entry>,
    key: Seq<u8>,
    value: Seq<u8>,
)
    requires
        interval >= 1,
    ensures
        ({
            let n = before.len() as int;
            let shared = if n == 0 {
                0
            } else {
                shared_len(interval, before.last().0, key, n)
            };
            entry_pieces(interval, before.push((key, value))) == entry_pieces(
                interval,
                before,
            ).push(entry_piece(shared, key, value))
        }),
{
    let after = before.push((key, value));
    let n = before.len() as int;
    lemma_since_restart(interval, 0);
    assert forall|i: int| 0 <= i < n implies #[trigger] entry_pieces(interval, after)[i]
        == entry_pieces(interval, before)[i] by {
        assert(after[i] == before[i]);
        if i > 0 {
            assert(after[i - 1] == before[i - 1]);
        }
    }
    if n > 0 {
        assert(after[n - 1] == before.last());
    }
    let shared = shared_len(interval, after[n - 1].0, key, n);
    assert(entry_pieces(interval, after) =~= entry_pieces(interval, before).push(
        entry_piece(shared, key, value),
    ));
}

/// One more index entry is one more piece.
proof fn lemma_index_pieces_push(
    interval: int,
    before: Seq<IndexEntry>,
    key: Seq<u8>,
    handle: BlockHandle,
)
    requires
        interval >= 1,
    ensures
        ({
            let n = before.len() as int;
            let shared = if n == 0 {
                0
            } else {
                shared_len(interval, before.last().0, key, n)
            };
            index_pieces(interval, before.push((key, handle))) == index_pieces(
                interval,
                before,
            ).push(index_piece(shared, key, before.last().1, handle))
        }),
{
    let after = before.push((key, handle));
    let n = before.len() as int;
    lemma_since_restart(interval, 0);
    assert forall|i: int| 0 <= i < n implies #[trigger] index_pieces(interval, after)[i]
        == index_pieces(interval, before)[i] by {
        assert(after[i] == before[i]);
        if i > 0 {
            assert(after[i - 1] == before[i - 1]);
        }
    }
    if n > 0 {
        assert(after[n - 1] == before.last());
    }
    let shared = shared_len(interval, after[n - 1].0, key, n);
    assert(index_piece(shared, key, after[n - 1].1, handle) == index_piece(
        shared,
        key,
        before.last().1,
        handle,
    ));
    assert(index_pieces(interval, after) =~= index_pieces(interval, before).push(
        index_piece(shared, key, before.last().1, handle),
    ));
}

/// Builds a data block entry by entry.
pub struct BlockBuilder {
    restart_interval: usize,
    buffer: Vec<u8>,
    restarts: Vec<u32>,
    last_key: Vec<u8>,
    counter: usize,
    entries: Ghost<Seq<Entry>>,
}

impl BlockBuilder {
    /// What holds between calls.
    pub closed spec fn inv(&self) -> bool {
        let interval = self.restart_interval as int;
        let pieces = entry_pieces(interval, self.entries@);
        &&& interval >= 1
        &&& self.buffer@ == joined(pieces)
        &&& self.restarts@ == restart_offsets(interval, pieces)
        &&& self.last_key@ == last_key(self.entries@)
        &&& self.counter == since_restart(interval, self.entries@.len())
    }

    /// How many entries a restart interval has.
    pub closed spec fn interval(&self) -> int {
        self.restart_interval as int
    }

    /// The entries added so far.
    pub closed spec fn entries(&self) -> Seq<Entry> {
        self.entries@
    }

    pub fn new(restart_interval: usize) -> (r: Self)
        requires
            restart_interval >= 1,
        ensures
            r.inv(),
            r.interval() == restart_interval,
            r.entries() == Seq::<Entry>::empty(),
    {
        let mut restarts: Vec<u32> = Vec::new();
        restarts.push(0);
        let r = BlockBuilder {
            restart_interval,
            buffer: Vec::new(),
            restarts,
            last_key: Vec::new(),
            counter: 0,
            entries: Ghost(Seq::empty()),
        };
        assert(r.restarts@ =~= seq![0u32]);
        assert(r.buffer@ =~= Seq::<u8>::empty());
        assert(r.last_key@ =~= Seq::<u8>::empty());
        r
    }

    /// Whether no entry was added yet.
    pub fn is_empty(&self) -> (r: bool)
        requires
            self.inv(),
        ensures
            r == (self.entries().len() == 0),
    {
        proof {
            let interval = self.restart_interval as int;
            lemma_entry_pieces_not_empty(interval, self.entries@);
            lemma_joined_empty(entry_pieces(interval, self.entries@));
        }
        self.buffer.len() == 0
    }

    /// How many bytes `finish` would return.
    pub fn current_size_estimate(&self) -> (r: usize)
        requires
            self.inv(),
            data_block(self.interval(), self.entries()).len() <= usize::MAX,
        ensures
            r == data_block(self.interval(), self.entries()).len(),
    {
        proof {
            lemma_sealed_len(self.buffer@, self.restarts@);
        }
        self.buffer.len() + self.restarts.len() * 4 + 4
    }

    /// Adds an entry. For the block to be searchable its key has to be greater
    /// than the ones before.
    #[verifier::rlimit(50)]
    pub fn add(&mut self, key: &[u8], value: &[u8])
        requires
            old(self).inv(),
        ensures
            final(self).inv(),
            final(self).interval() == old(self).interval(),
            final(self).entries() == old(self).entries().push((key@, value@)),
    {
        let ghost interval = self.restart_interval as int;
        let ghost before = self.entries@;
        let ghost pieces = entry_pieces(interval, before);
        let ghost n = before.len();
        proof {
            lemma_since_restart(interval, n);
            lemma_since_restart(interval, n + 1);
            lemma_common_prefix(self.last_key@, key@);
        }
        let shared: usize = if self.counter >= self.restart_interval {
            self.restarts.push(self.buffer.len() as u32);
            self.counter = 0;
            0
        } else {
            shared_prefix_len(self.last_key.as_slice(), key)
        };
        let non_shared: usize = key.len() - shared;
        put_varint32(&mut self.buffer, shared as u32);
        put_varint32(&mut self.buffer, non_shared as u32);
        put_varint32(&mut self.buffer, value.len() as u32);
        append_bytes(&mut self.buffer, slice_subrange(key, shared, key.len()));
        append_bytes(&mut self.buffer, value);
        self.last_key.clear();
        append_bytes(&mut self.last_key, key);
        self.counter = self.counter + 1;
        proof {
            let after = before.push((key@, value@));
            self.entries@ = after;
            let all = entry_pieces(interval, after);
            let piece = entry_piece(shared as int, key@, value@);
            lemma_entry_pieces_push(interval, before, key@, value@);
            assert(all.drop_last() =~= pieces);
            assert(key@.skip(shared as int) =~= key@.subrange(shared as int, key@.len() as int));
            assert(self.buffer@ =~= joined(pieces) + piece);
            assert(self.last_key@ =~= key@);
        }
    }

    /// Appends the restart array and its length, and hands the block out.
    pub fn finish(self) -> (r: Vec<u8>)
        requires
            self.inv(),
        ensures
            r@ == data_block(self.interval(), self.entries()),
    {
        seal(self.buffer, &self.restarts)
    }
}

/// Appends a restart array and its length.
fn seal(entry_bytes: Vec<u8>, restarts: &Vec<u32>) -> (r: Vec<u8>)
    ensures
        r@ == sealed(entry_bytes@, restarts@),
{
    let mut out = entry_bytes;
    let mut i: usize = 0;
    while i < restarts.len()
        invariant
            i <= restarts@.len(),
            out@ == entry_bytes@ + number_bytes(restarts@.take(i as int)),
        decreases restarts@.len() - i,
    {
        append_bytes(&mut out, u32_to_le_bytes(restarts[i]).as_slice());
        proof {
            assert(restarts@.take(i + 1).drop_last() =~= restarts@.take(i as int));
            assert(out@ =~= entry_bytes@ + number_bytes(restarts@.take(i + 1)));
        }
        i = i + 1;
    }
    assert(restarts@.take(i as int) =~= restarts@);
    append_bytes(&mut out, u32_to_le_bytes(restarts.len() as u32).as_slice());
    out
}

/// Builds an index block entry by entry.
pub struct IndexBlockBuilder {
    restart_interval: usize,
    buffer: Vec<u8>,
    restarts: Vec<u32>,
    last_key: Vec<u8>,
    last_handle: Option<BlockHandle>,
    counter: usize,
    entries: Ghost<Seq<IndexEntry>>,
}

/// Whether the entry `(key, handle)` can follow `before`: where it is written
/// relative to the last one, the difference of their sizes fits 64 bits.
pub open spec fn index_entry_fits(
    interval: int,
    before: Seq<IndexEntry>,
    key: Seq<u8>,
    handle: BlockHandle,
) -> bool {
    before.len() > 0 && shared_len(interval, before.last().0, key, before.len() as int) != 0
        ==> size_delta_fits(before.last().1, handle)
}

impl IndexBlockBuilder {
    /// What holds between calls.
    pub closed spec fn inv(&self) -> bool {
        let interval = self.restart_interval as int;
        let pieces = index_pieces(interval, self.entries@);
        &&& interval >= 1
        &&& self.buffer@ == joined(pieces)
        &&& self.restarts@ == restart_offsets(interval, pieces)
        &&& self.last_key@ == last_index_key(self.entries@)
        &&& self.last_handle == last_index_handle(self.entries@)
        &&& self.counter == since_restart(interval, self.entries@.len())
    }

    /// How many entries a restart interval has.
    pub closed spec fn interval(&self) -> int {
        self.restart_interval as int
    }

    /// The entries added so far.
    pub closed spec fn entries(&self) -> Seq<IndexEntry> {
        self.entries@
    }

    pub fn new(restart_interval: usize) -> (r: Self)
        requires
            restart_interval >= 1,
        ensures
            r.inv(),
            r.interval() == restart_interval,
            r.entries() == Seq::<IndexEntry>::empty(),
    {
        let mut restarts: Vec<u32> = Vec::new();
        restarts.push(0);
        let r = IndexBlockBuilder {
            restart_interval,
            buffer: Vec::new(),
            restarts,
            last_key: Vec::new(),
            last_handle: None,
            counter: 0,
            entries: Ghost(Seq::empty()),
        };
        assert(r.restarts@ =~= seq![0u32]);
        assert(r.buffer@ =~= Seq::<u8>::empty());
        assert(r.last_key@ =~= Seq::<u8>::empty());
        r
    }

    /// Whether no entry was added yet.
    pub fn is_empty(&self) -> (r: bool)
        requires
            self.inv(),
        ensures
            r == (self.entries().len() == 0),
    {
        proof {
            let interval = self.restart_interval as int;
            lemma_index_pieces_not_empty(interval, self.entries@);
            lemma_joined_empty(index_pieces(interval, self.entries@));
        }
        self.buffer.len() == 0
    }

    /// How many bytes `finish` would return.
    pub fn current_size_estimate(&self) -> (r: usize)
        requires
            self.inv(),
            index_block(self.interval(), self.entries()).len() <= usize::MAX,
        ensures
            r == index_block(self.interval(), self.entries()).len(),
    {
        proof {
            lemma_sealed_len(self.buffer@, self.restarts@);
        }
        self.buffer.len() + self.restarts.len() * 4 + 4
    }

    /// Adds an entry. For the block to be searchable its key has to be greater
    /// than the ones before.
    #[verifier::rlimit(50)]
    pub fn add(&mut self, key: &[u8], handle: BlockHandle)
        requires
            old(self).inv(),
            index_entry_fits(old(self).interval(), old(self).entries(), key@, handle),
        ensures
            final(self).inv(),
            final(self).interval() == old(self).interval(),
            final(self).entries() == old(self).entries().push((key@, handle)),
    {
        let ghost interval = self.restart_interval as int;
        let ghost before = self.entries@;
        let ghost pieces = index_pieces(interval, before);
        let ghost n = before.len();
        proof {
            lemma_since_restart(interval, n);
            lemma_since_restart(interval, n + 1);
            lemma_common_prefix(self.last_key@, key@);
        }
        let shared: usize = if self.counter >= self.restart_interval {
            self.restarts.push(self.buffer.len() as u32);
            self.counter = 0;
            0
        } else {
            shared_prefix_len(self.last_key.as_slice(), key)
        };
        let non_shared: usize = key.len() - shared;
        put_varint32(&mut self.buffer, shared as u32);
        put_varint32(&mut self.buffer, non_shared as u32);
        append_bytes(&mut self.buffer, slice_subrange(key, shared, key.len()));
        if shared == 0 {
            put_varint64(&mut self.buffer, handle.offset);
            put_varint64(&mut self.buffer, handle.size);
        } else if let Some(prev) = self.last_handle {
            put_size_delta(&mut self.buffer, prev.size, handle.size);
        }
        self.last_key.clear();
        append_bytes(&mut self.last_key, key);
        self.last_handle = Some(handle);
        self.counter = self.counter + 1;
        proof {
            let after = before.push((key@, handle));
            self.entries@ = after;
            let all = index_pieces(interval, after);
            let piece = index_piece(shared as int, key@, before.last().1, handle);
            lemma_index_pieces_push(interval, before, key@, handle);
            assert(all.drop_last() =~= pieces);
            assert(key@.skip(shared as int) =~= key@.subrange(shared as int, key@.len() as int));
            assert(self.buffer@ =~= joined(pieces) + piece);
            assert(self.last_key@ =~= key@);
        }
    }

    /// Appends the restart array and its length, and hands the block out.
    pub fn finish(self) -> (r: Vec<u8>)
        requires
            self.inv(),
        ensures
            r@ == index_block(self.interval(), self.entries()),
    {
        seal(self.buffer, &self.restarts)
    }
}

/// Appends the signed difference of two sizes.
fn put_size_delta(out: &mut Vec<u8>, prev: u64, size: u64)
    requires
        i64::MIN <= signed_size(size) - signed_size(prev) <= i64::MAX,
    ensures
        final(out)@ == old(out)@ + varint(zigzag(signed_size(size) - signed_size(prev)) as nat),
{
    let delta: i128 = to_signed(size) - to_signed(prev);
    put_varsigned64(out, delta as i64);
}

/// Computes `signed_size`.
fn to_signed(size: u64) -> (r: i128)
    ensures
        r == signed_size(size),
{
    if size <= i64::MAX as u64 {
        size as i128
    } else {
        size as i128 - 0x1_0000_0000_0000_0000
    }
}

/// Appends a signed number.
fn put_varsigned64(out: &mut Vec<u8>, v: i64)
    ensures
        final(out)@ == old(out)@ + varint(zigzag(v as int) as nat),
{
    let u: u64 = if v >= 0 {
        v as u64 * 2
    } else {
        (-(v + 1)) as u64 * 2 + 1
    };
    put_varint64(out, u);
}

proof fn lemma_number_bytes(numbers: Seq<u32>)
    ensures
        number_bytes(numbers).len() == 4 * numbers.len(),
        forall|i: int|
            0 <= i < numbers.len() ==> #[trigger] number_bytes(numbers).subrange(4 * i, 4 * i + 4)
                == spec_u32_to_le_bytes(numbers[i]),
    decreases numbers.len(),
{
    lemma_auto_spec_u32_to_from_le_bytes();
    if numbers.len() > 0 {
        let before = numbers.drop_last();
        lemma_number_bytes(before);
        assert forall|i: int| 0 <= i < numbers.len() implies #[trigger] number_bytes(
            numbers,
        ).subrange(4 * i, 4 * i + 4) == spec_u32_to_le_bytes(numbers[i]) by {
            if i < before.len() {
                assert(number_bytes(before).subrange(4 * i, 4 * i + 4) =~= number_bytes(
                    numbers,
                ).subrange(4 * i, 4 * i + 4));
            } else {
                assert(number_bytes(numbers).subrange(4 * i, 4 * i + 4) =~= spec_u32_to_le_bytes(
                    numbers[i],
                ));
            }
        }
    }
}

proof fn lemma_sealed_len(entry_bytes: Seq<u8>, restarts: Seq<u32>)
    ensures
        sealed(entry_bytes, restarts).len() == entry_bytes.len() + 4 * restarts.len() + 4,
{
    lemma_auto_spec_u32_to_from_le_bytes();
    lemma_number_bytes(restarts);
}

proof fn lemma_joined_empty(pieces: Seq<Seq<u8>>)
    requires
        forall|i: int| 0 <= i < pieces.len() ==> #[trigger] pieces[i].len() > 0,
    ensures
        joined(pieces).len() >= pieces.len(),
        joined(pieces).len() == 0 <==> pieces.len() == 0,
    decreases pieces.len(),
{
    if pieces.len() > 0 {
        assert(pieces.last().len() > 0);
        assert forall|i: int| 0 <= i < pieces.drop_last().len() implies #[trigger] pieces.drop_last()[i].len()
            > 0 by {
            assert(pieces[i].len() > 0);
        }
        lemma_joined_empty(pieces.drop_last());
    }
}

proof fn lemma_entry_pieces_not_empty(interval: int, entries: Seq<Entry>)
    ensures
        forall|i: int|
            0 <= i < entries.len() ==> #[trigger] entry_pieces(interval, entries)[i].len() > 0,
{
    assert forall|i: int| 0 <= i < entries.len() implies #[trigger] entry_pieces(
        interval,
        entries,
    )[i].len() > 0 by {
        let shared = shared_len(interval, entries[i - 1].0, entries[i].0, i);
        lemma_varint_len(shared as u32 as u64);
    }
}

proof fn lemma_index_pieces_not_empty(interval: int, entries: Seq<IndexEntry>)
    ensures
        forall|i: int|
            0 <= i < entries.len() ==> #[trigger] index_pieces(interval, entries)[i].len() > 0,
{
    assert forall|i: int| 0 <= i < entries.len() implies #[trigger] index_pieces(
        interval,
        entries,
    )[i].len() > 0 by {
        let shared = shared_len(interval, entries[i - 1].0, entries[i].0, i);
        lemma_varint_len(shared as u32 as u64);
    }
}

/// The joined pieces start with those of any prefix.
proof fn lemma_joined_prefix(pieces: Seq<Seq<u8>>, k: int)
    requires
        0 <= k <= pieces.len(),
    ensures
        piece_start(pieces, k) <= joined(pieces).len(),
        joined(pieces).take(piece_start(pieces, k)) == joined(pieces.take(k)),
    decreases pieces.len(),
{
    if k == pieces.len() {
        assert(pieces.take(k) =~= pieces);
        assert(joined(pieces).take(piece_start(pieces, k)) =~= joined(pieces));
    } else {
        lemma_joined_prefix(pieces.drop_last(), k);
        assert(pieces.drop_last().take(k) =~= pieces.take(k));
        assert(joined(pieces).take(piece_start(pieces, k)) =~= joined(pieces.drop_last()).take(
            piece_start(pieces, k),
        ));
    }
}

/// Every piece is found where those before it end.
proof fn lemma_piece_at(pieces: Seq<Seq<u8>>, k: int)
    requires
        0 <= k < pieces.len(),
    ensures
        piece_start(pieces, k + 1) == piece_start(pieces, k) + pieces[k].len(),
        piece_start(pieces, k + 1) <= joined(pieces).len(),
        joined(pieces).subrange(piece_start(pieces, k), piece_start(pieces, k + 1)) == pieces[k],
{
    let upto = pieces.take(k + 1);
    assert(upto.drop_last() =~= pieces.take(k));
    assert(upto.last() == pieces[k]);
    lemma_joined_prefix(pieces, k + 1);
    assert(joined(pieces).subrange(piece_start(pieces, k), piece_start(pieces, k + 1))
        =~= joined(upto).subrange(piece_start(pieces, k), piece_start(pieces, k + 1)));
    assert(joined(upto).subrange(piece_start(pieces, k), piece_start(pieces, k + 1)) =~= pieces[k]);
}

proof fn lemma_restart_count(interval: int, pieces: Seq<Seq<u8>>)
    ensures
        1 <= restart_offsets(interval, pieces).len(),
        restart_offsets(interval, pieces).len() <= pieces.len() || pieces.len() == 0,
        pieces.len() == 0 ==> restart_offsets(interval, pieces).len() == 1,
    decreases pieces.len(),
{
    if pieces.len() > 1 {
        lemma_restart_count(interval, pieces.drop_last());
    }
}

/// There is a restart point for every full interval, and one for what is left.
proof fn lemma_restart_number(interval: int, pieces: Seq<Seq<u8>>)
    requires
        interval >= 1,
        pieces.len() > 0,
    ensures
        restart_offsets(interval, pieces).len() == (pieces.len() - 1) / interval + 1,
    decreases pieces.len(),
{
    let n = pieces.len() - 1;
    if n == 0 {
        lemma_fundamental_div_mod_converse(0, interval, 0, 0);
    } else {
        lemma_restart_number(interval, pieces.drop_last());
        let q = (n - 1) / interval;
        let r = (n - 1) % interval;
        lemma_fundamental_div_mod(n - 1, interval);
        assert(0 <= r < interval) by (nonlinear_arith)
            requires
                r == (n - 1) % interval,
                interval >= 1,
        ;
        if r + 1 < interval {
            lemma_fundamental_div_mod_converse(n, interval, q, r + 1);
        } else {
            assert(n == interval * (q + 1) + 0) by (nonlinear_arith)
                requires
                    n - 1 == interval * q + r,
                    r + 1 == interval,
            ;
            lemma_fundamental_div_mod_converse(n, interval, q + 1, 0);
        }
    }
}

/// Where the entries are not too many for their interval, the restart points
/// can be counted in 32 bits.
proof fn lemma_restarts_countable(interval: int, pieces: Seq<Seq<u8>>)
    requires
        interval >= 1,
        pieces.len() <= interval * u32::MAX,
    ensures
        restart_offsets(interval, pieces).len() <= u32::MAX,
{
    if pieces.len() > 0 {
        let n = pieces.len() as int;
        lemma_restart_number(interval, pieces);
        assert((n - 1) / interval < u32::MAX) by (nonlinear_arith)
            requires
                interval >= 1,
                1 <= n <= interval * u32::MAX,
        ;
    }
}

/// What was sealed comes apart again.
proof fn lemma_sealed_parses(entry_bytes: Seq<u8>, restarts: Seq<u32>)
    requires
        restarts.len() <= u32::MAX,
    ensures
        parsed(sealed(entry_bytes, restarts)) == Ok::<(Seq<u8>, Seq<u32>), FormatError>(
            (entry_bytes, restarts),
        ),
{
    lemma_auto_spec_u32_to_from_le_bytes();
    lemma_number_bytes(restarts);
    lemma_sealed_len(entry_bytes, restarts);
    let block = sealed(entry_bytes, restarts);
    let n = block.len() as int;
    let start = n - 4 - 4 * restarts.len();
    assert(block.subrange(n - 4, n) =~= spec_u32_to_le_bytes(restarts.len() as u32));
    assert(restart_count(block) == restarts.len());
    assert(block.take(start) =~= entry_bytes);
    assert forall|i: int| 0 <= i < restarts.len() implies restart_array(block)[i] == restarts[i] by {
        assert(block.subrange(start + 4 * i, start + 4 * i + 4) =~= number_bytes(restarts).subrange(
            4 * i,
            4 * i + 4,
        ));
    }
    assert(restart_array(block) =~= restarts);
}

/// Reading an entry where its bytes are gives back its key and value.
proof fn lemma_entry_piece_read(
    data: Seq<u8>,
    pos: int,
    last: Seq<u8>,
    shared: int,
    key: Seq<u8>,
    value: Seq<u8>,
)
    requires
        0 <= pos,
        pos + entry_piece(shared, key, value).len() <= data.len(),
        data.subrange(pos, pos + entry_piece(shared, key, value).len()) == entry_piece(
            shared,
            key,
            value,
        ),
        0 <= shared <= last.len(),
        shared <= key.len(),
        key.len() <= u32::MAX,
        value.len() <= u32::MAX,
        last.take(shared) == key.take(shared),
    ensures
        entry_at(data, pos, last) == Ok::<(Seq<u8>, Seq<u8>, int), FormatError>(
            (key, value, pos + entry_piece(shared, key, value).len()),
        ),
{
    let piece = entry_piece(shared, key, value);
    let v1 = varint(shared as u32 as nat);
    let v2 = varint((key.len() - shared) as u32 as nat);
    let v3 = varint(value.len() as u32 as nat);
    let p1 = v1.len() as int;
    let p2 = p1 + v2.len();
    let p3 = p2 + v3.len();
    let p4 = p3 + key.len() - shared;
    assert(piece.len() == p4 + value.len());
    assert forall|a: int, b: int| 0 <= a <= b <= piece.len() implies #[trigger] data.subrange(
        pos + a,
        pos + b,
    ) == piece.subrange(a, b) by {
        assert(data.subrange(pos + a, pos + b) =~= data.subrange(pos, pos + piece.len()).subrange(
            a,
            b,
        ));
    }
    assert(data.subrange(pos + 0, pos + p1) =~= v1);
    assert(data.subrange(pos + p1, pos + p2) =~= v2);
    assert(data.subrange(pos + p2, pos + p3) =~= v3);
    assert(data.subrange(pos + p3, pos + p4) =~= key.skip(shared));
    assert(data.subrange(pos + p4, pos + piece.len()) =~= value);
    lemma_varint32_round_trip(data, pos, shared as u32);
    lemma_varint32_round_trip(data, pos + p1, (key.len() - shared) as u32);
    lemma_varint32_round_trip(data, pos + p2, value.len() as u32);
    assert(key.take(shared) + key.skip(shared) =~= key);
}

/// Room for `entries` in one block.
pub open spec fn block_room(entries: Seq<Entry>) -> nat {
    weight(entries) + 8
}

/// A data block fits the room that is set aside for it.
pub proof fn lemma_data_block_len(interval: int, entries: Seq<Entry>)
    requires
        interval >= 1,
    ensures
        data_block(interval, entries).len() <= block_room(entries),
{
    let pieces = entry_pieces(interval, entries);
    lemma_joined_pieces_len(interval, entries);
    lemma_restart_count(interval, pieces);
    lemma_sealed_len(joined(pieces), restart_offsets(interval, pieces));
}

/// A data block has more bytes than entries.
pub proof fn lemma_data_block_size(interval: int, entries: Seq<Entry>)
    ensures
        data_block(interval, entries).len() > entries.len(),
{
    let pieces = entry_pieces(interval, entries);
    lemma_entry_pieces_not_empty(interval, entries);
    lemma_joined_empty(pieces);
    lemma_sealed_len(joined(pieces), restart_offsets(interval, pieces));
}

/// An index block has at most four more bytes for each entry, and eight.
pub proof fn lemma_index_block_len(interval: int, entries: Seq<IndexEntry>)
    ensures
        index_block(interval, entries).len() <= joined(index_pieces(interval, entries)).len() + 4
            * entries.len() + 8,
{
    let pieces = index_pieces(interval, entries);
    lemma_restart_count(interval, pieces);
    lemma_sealed_len(joined(pieces), restart_offsets(interval, pieces));
}

/// An index block has more bytes than its entries.
pub proof fn lemma_index_block_size(interval: int, entries: Seq<IndexEntry>)
    ensures
        index_block(interval, entries).len() > joined(index_pieces(interval, entries)).len(),
{
    let pieces = index_pieces(interval, entries);
    lemma_sealed_len(joined(pieces), restart_offsets(interval, pieces));
}

proof fn lemma_joined_pieces_len(interval: int, entries: Seq<Entry>)
    requires
        interval >= 1,
    ensures
        joined(entry_pieces(interval, entries)).len() <= key_bytes(entries) + value_bytes(entries)
            + 15 * entries.len(),
    decreases entries.len(),
{
    if entries.len() > 0 {
        let before = entries.drop_last();
        let (key, value) = entries.last();
        lemma_joined_pieces_len(interval, before);
        lemma_entry_pieces_push(interval, before, key, value);
        lemma_bytes_push(before, entries.last());
        assert(before.push(entries.last()) =~= entries);
        let n = before.len() as int;
        let shared = if n == 0 {
            0
        } else {
            shared_len(interval, before.last().0, key, n)
        };
        if n > 0 {
            lemma_common_prefix(before.last().0, key);
        }
        lemma_varint_len(shared as u32 as u64);
        lemma_varint_len((key.len() - shared) as u32 as u64);
        lemma_varint_len(value.len() as u32 as u64);
        let pieces = entry_pieces(interval, entries);
        assert(pieces.drop_last() =~= entry_pieces(interval, before));
    }
}

/// Whether every key and value is short enough for its length to be written.
pub open spec fn lengths_fit(entries: Seq<Entry>) -> bool {
    forall|i: int|
        0 <= i < entries.len() ==> #[trigger] entries[i].0.len() <= u32::MAX && entries[i].1.len()
            <= u32::MAX
}

proof fn lemma_entries_read_back(interval: int, entries: Seq<Entry>, k: int)
    requires
        interval >= 1,
        lengths_fit(entries),
        0 <= k <= entries.len(),
    ensures
        ({
            let pieces = entry_pieces(interval, entries);
            entries_from(
                joined(pieces),
                piece_start(pieces, k),
                last_key(entries.take(k)),
            ) == (entries.skip(k), None::<FormatError>)
        }),
    decreases entries.len() - k,
{
    let pieces = entry_pieces(interval, entries);
    let data = joined(pieces);
    let pos = piece_start(pieces, k);
    let last = last_key(entries.take(k));
    if k == entries.len() {
        assert(pieces.take(k) =~= pieces);
        assert(entries.skip(k) =~= Seq::<Entry>::empty());
    } else {
        let (key, value) = entries[k];
        let shared = shared_len(interval, entries[k - 1].0, key, k);
        lemma_piece_at(pieces, k);
        lemma_entry_pieces_not_empty(interval, entries);
        if k > 0 {
            assert(last == entries[k - 1].0);
            lemma_common_prefix(last, key);
        } else {
            lemma_since_restart(interval, 0);
        }
        assert(last.take(shared) =~= key.take(shared));
        assert(entries[k].0.len() <= u32::MAX);
        assert(pieces[k] == entry_piece(shared, key, value));
        lemma_entry_piece_read(data, pos, last, shared, key, value);
        lemma_entries_read_back(interval, entries, k + 1);
        assert(last_key(entries.take(k + 1)) == key);
        assert(seq![(key, value)] + entries.skip(k + 1) =~= entries.skip(k));
    }
}

/// What a read gives back of a write: the entries that went into a data block
/// come out of it in order, whatever the restart interval.
pub proof fn lemma_data_block_round_trip(interval: int, entries: Seq<Entry>)
    requires
        interval >= 1,
        lengths_fit(entries),
        entries.len() <= interval * u32::MAX,
    ensures
        parsed(data_block(interval, entries)) matches Ok((entry_bytes, _)) && block_entries(
            entry_bytes,
        ) == (entries, None::<FormatError>),
{
    let pieces = entry_pieces(interval, entries);
    lemma_restarts_countable(interval, pieces);
    lemma_sealed_parses(joined(pieces), restart_offsets(interval, pieces));
    lemma_entries_read_back(interval, entries, 0);
    assert(pieces.take(0) =~= Seq::<Seq<u8>>::empty());
    assert(entries.skip(0) =~= entries);
}

/// `zigzag` loses nothing.
proof fn lemma_zigzag(v: int)
    requires
        i64::MIN <= v <= i64::MAX,
    ensures
        0 <= zigzag(v) <= u64::MAX,
        unzigzag(zigzag(v) as u64) == v,
{
}

/// Where consecutive pieces are not empty, each starts behind the last.
proof fn lemma_piece_starts_increase(pieces: Seq<Seq<u8>>, j: int, k: int)
    requires
        0 <= j < k <= pieces.len(),
        forall|i: int| 0 <= i < pieces.len() ==> #[trigger] pieces[i].len() > 0,
    ensures
        piece_start(pieces, j) < piece_start(pieces, k),
    decreases k - j,
{
    lemma_piece_at(pieces, k - 1);
    assert(pieces[k - 1].len() > 0);
    if j < k - 1 {
        lemma_piece_starts_increase(pieces, j, k - 1);
    }
}

/// A restart offset is where an entry starts whose number is a multiple of the
/// interval.
proof fn lemma_restart_is_multiple(interval: int, pieces: Seq<Seq<u8>>, r: int)
    requires
        interval >= 1,
        0 <= r < restart_offsets(interval, pieces).len(),
        joined(pieces).len() <= u32::MAX,
    ensures
        exists|j: int|
            {
                &&& 0 <= j <= pieces.len()
                &&& j == 0 || j < pieces.len()
                &&& j % interval == 0
                &&& #[trigger] piece_start(pieces, j) == restart_offsets(interval, pieces)[r]
            },
    decreases pieces.len(),
{
    if pieces.len() <= 1 {
        lemma_since_restart(interval, 0);
        assert(pieces.take(0) =~= Seq::<Seq<u8>>::empty());
        assert(piece_start(pieces, 0) == 0);
    } else {
        let before = pieces.drop_last();
        let n = before.len() as int;
        assert(before =~= pieces.take(n));
        if r < restart_offsets(interval, before).len() {
            lemma_restart_is_multiple(interval, before, r);
            let j = choose|j: int|
                {
                    &&& 0 <= j <= before.len()
                    &&& j == 0 || j < before.len()
                    &&& j % interval == 0
                    &&& #[trigger] piece_start(before, j) == restart_offsets(interval, before)[r]
                };
            assert(before.take(j) =~= pieces.take(j));
            assert(piece_start(pieces, j) == restart_offsets(interval, pieces)[r]);
        } else {
            assert(piece_start(pieces, n) == restart_offsets(interval, pieces)[r]);
        }
    }
}

/// An entry that shares bytes with the one before is at no restart offset.
proof fn lemma_not_restart(interval: int, pieces: Seq<Seq<u8>>, k: int)
    requires
        interval >= 1,
        0 <= k < pieces.len(),
        k % interval != 0,
        joined(pieces).len() <= u32::MAX,
        forall|i: int| 0 <= i < pieces.len() ==> #[trigger] pieces[i].len() > 0,
    ensures
        !is_restart(restart_offsets(interval, pieces), piece_start(pieces, k)),
{
    let restarts = restart_offsets(interval, pieces);
    let pos = piece_start(pieces, k);
    if is_restart(restarts, pos) {
        let r = choose|r: int| 0 <= r < restarts.len() && #[trigger] restarts[r] as int == pos;
        lemma_restart_is_multiple(interval, pieces, r);
        let j = choose|j: int|
            {
                &&& 0 <= j <= pieces.len()
                &&& j == 0 || j < pieces.len()
                &&& j % interval == 0
                &&& #[trigger] piece_start(pieces, j) == restarts[r]
            };
        if j < k {
            lemma_piece_starts_increase(pieces, j, k);
        } else if k < j {
            lemma_piece_starts_increase(pieces, k, j);
        }
    }
}

/// Reading an index entry where its bytes are gives back its key and handle.
proof fn lemma_index_piece_read(
    data: Seq<u8>,
    restarts: Seq<u32>,
    pos: int,
    last: Seq<u8>,
    prev: BlockHandle,
    shared: int,
    key: Seq<u8>,
    handle: BlockHandle,
)
    requires
        0 <= pos,
        pos + index_piece(shared, key, prev, handle).len() <= data.len(),
        data.subrange(pos, pos + index_piece(shared, key, prev, handle).len()) == index_piece(
            shared,
            key,
            prev,
            handle,
        ),
        0 <= shared <= last.len(),
        shared <= key.len(),
        key.len() <= u32::MAX,
        last.take(shared) == key.take(shared),
        shared != 0 ==> {
            &&& !is_restart(restarts, pos)
            &&& size_delta_fits(prev, handle)
            &&& handle.offset == prev.offset + prev.size + BLOCK_TRAILER_SIZE
        },
    ensures
        forall|p: Option<BlockHandle>|
            shared == 0 || p == Some(prev) ==> #[trigger] index_entry_at(
                data,
                restarts,
                pos,
                last,
                p,
            ) == Ok::<(Seq<u8>, BlockHandle, int), FormatError>(
                (key, handle, pos + index_piece(shared, key, prev, handle).len()),
            ),
{
    let piece = index_piece(shared, key, prev, handle);
    let v1 = varint(shared as u32 as nat);
    let v2 = varint((key.len() - shared) as u32 as nat);
    let hp = handle_piece(shared == 0, prev, handle);
    let p1 = v1.len() as int;
    let p2 = p1 + v2.len();
    let p3 = p2 + key.len() - shared;
    assert(piece.len() == p3 + hp.len());
    assert forall|a: int, b: int| 0 <= a <= b <= piece.len() implies #[trigger] data.subrange(
        pos + a,
        pos + b,
    ) == piece.subrange(a, b) by {
        assert(data.subrange(pos + a, pos + b) =~= data.subrange(pos, pos + piece.len()).subrange(
            a,
            b,
        ));
    }
    assert(data.subrange(pos + 0, pos + p1) =~= v1);
    assert(data.subrange(pos + p1, pos + p2) =~= v2);
    assert(data.subrange(pos + p2, pos + p3) =~= key.skip(shared));
    assert(data.subrange(pos + p3, pos + piece.len()) =~= hp);
    lemma_varint32_round_trip(data, pos, shared as u32);
    lemma_varint32_round_trip(data, pos + p1, (key.len() - shared) as u32);
    assert(key.take(shared) + key.skip(shared) =~= key);
    if shared == 0 {
        let w1 = varint(handle.offset as nat);
        let w2 = varint(handle.size as nat);
        let p4 = p3 + w1.len();
        assert(data.subrange(pos + p3, pos + p4) =~= w1);
        assert(data.subrange(pos + p4, pos + piece.len()) =~= w2);
        lemma_varint64_round_trip(data, pos + p3, handle.offset);
        lemma_varint64_round_trip(data, pos + p4, handle.size);
    } else {
        let delta = signed_size(handle.size) - signed_size(prev.size);
        lemma_zigzag(delta);
        lemma_varint64_round_trip(data, pos + p3, zigzag(delta) as u64);
        assert(handle_behind(prev, delta) == Ok::<BlockHandle, FormatError>(handle));
    }
}

/// Whether an index block can hold `entries` so that they can be read back:
/// the keys are short enough for their length to be written, and where a
/// handle is written relative to the one before, the two blocks stand one
/// behind the other and the difference of their sizes fits 64 bits.
pub open spec fn index_entries_fit(interval: int, entries: Seq<IndexEntry>) -> bool {
    &&& forall|i: int| 0 <= i < entries.len() ==> #[trigger] entries[i].0.len() <= u32::MAX
    &&& forall|i: int|
        0 < i < entries.len() && shared_len(interval, entries[i - 1].0, entries[i].0, i) != 0 ==> {
            &&& size_delta_fits(entries[i - 1].1, (#[trigger] entries[i]).1)
            &&& entries[i].1.offset == entries[i - 1].1.offset + entries[i - 1].1.size
                + BLOCK_TRAILER_SIZE
        }
}

proof fn lemma_index_entries_read_back(interval: int, entries: Seq<IndexEntry>, k: int)
    requires
        interval >= 1,
        index_entries_fit(interval, entries),
        interval == 1 || joined(index_pieces(interval, entries)).len() <= u32::MAX,
        0 <= k <= entries.len(),
    ensures
        ({
            let pieces = index_pieces(interval, entries);
            index_entries_from(
                joined(pieces),
                restart_offsets(interval, pieces),
                piece_start(pieces, k),
                last_index_key(entries.take(k)),
                last_index_handle(entries.take(k)),
            ) == (entries.skip(k), None::<FormatError>)
        }),
    decreases entries.len() - k,
{
    let pieces = index_pieces(interval, entries);
    let restarts = restart_offsets(interval, pieces);
    let data = joined(pieces);
    let pos = piece_start(pieces, k);
    let last = last_index_key(entries.take(k));
    let prev = last_index_handle(entries.take(k));
    if k == entries.len() {
        assert(pieces.take(k) =~= pieces);
        assert(entries.skip(k) =~= Seq::<IndexEntry>::empty());
    } else {
        let (key, handle) = entries[k];
        let shared = shared_len(interval, entries[k - 1].0, key, k);
        lemma_piece_at(pieces, k);
        lemma_index_pieces_not_empty(interval, entries);
        assert(entries[k].0.len() <= u32::MAX);
        if k > 0 {
            assert(last == entries[k - 1].0);
            assert(prev == Some(entries[k - 1].1));
            lemma_common_prefix(last, key);
        } else {
            lemma_since_restart(interval, 0);
        }
        assert(k % 1 == 0);
        if shared != 0 {
            lemma_not_restart(interval, pieces, k);
        }
        assert(last.take(shared) =~= key.take(shared));
        assert(pieces[k] == index_piece(shared, key, entries[k - 1].1, handle));
        lemma_index_piece_read(data, restarts, pos, last, entries[k - 1].1, shared, key, handle);
        assert(index_entry_at(data, restarts, pos, last, prev) == Ok::<
            (Seq<u8>, BlockHandle, int),
            FormatError,
        >((key, handle, pos + pieces[k].len())));
        lemma_index_entries_read_back(interval, entries, k + 1);
        assert(last_index_key(entries.take(k + 1)) == key);
        assert(last_index_handle(entries.take(k + 1)) == Some(handle));
        assert(seq![(key, handle)] + entries.skip(k + 1) =~= entries.skip(k));
    }
}

/// What a read gives back of a write: the entries that went into an index
/// block come out of it in order, whatever the restart interval. Where entries
/// stand between restart points, the restart offsets have to fit 32 bits.
pub proof fn lemma_index_block_round_trip(interval: int, entries: Seq<IndexEntry>)
    requires
        interval >= 1,
        index_entries_fit(interval, entries),
        entries.len() <= interval * u32::MAX,
        interval == 1 || joined(index_pieces(interval, entries)).len() <= u32::MAX,
    ensures
        parsed(index_block(interval, entries)) matches Ok((entry_bytes, restarts))
            && index_block_entries(entry_bytes, restarts) == (entries, None::<FormatError>),
{
    let pieces = index_pieces(interval, entries);
    lemma_restarts_countable(interval, pieces);
    lemma_sealed_parses(joined(pieces), restart_offsets(interval, pieces));
    lemma_index_entries_read_back(interval, entries, 0);
    assert(pieces.take(0) =~= Seq::<Seq<u8>>::empty());
    assert(entries.skip(0) =~= entries);
}

/// A restart offset is where the entry starts that it stands for.
proof fn lemma_restart_offset(interval: int, pieces: Seq<Seq<u8>>, r: int)
    requires
        interval >= 1,
        0 <= r,
        r == 0 || r * interval < pieces.len(),
        joined(pieces).len() <= u32::MAX,
    ensures
        r < restart_offsets(interval, pieces).len(),
        restart_offsets(interval, pieces)[r] == piece_start(pieces, r * interval),
    decreases pieces.len(),
{
    lemma_restart_count(interval, pieces);
    if r == 0 {
        assert(pieces.take(0) =~= Seq::<Seq<u8>>::empty());
        lemma_first_restart(interval, pieces);
    } else {
        let before = pieces.drop_last();
        let n = pieces.len() - 1;
        assert(r * interval >= interval) by (nonlinear_arith)
            requires
                r >= 1,
                interval >= 1,
        ;
        assert(pieces.len() > 1);
        if r * interval == n {
            assert(pieces.take(n) =~= before);
            lemma_restart_number(interval, before);
            assert(n == interval * r + 0) by (nonlinear_arith)
                requires
                    r * interval == n,
            ;
            lemma_fundamental_div_mod_converse(n, interval, r, 0);
            assert(n - 1 == interval * (r - 1) + (interval - 1)) by (nonlinear_arith)
                requires
                    n == interval * r,
            ;
            lemma_fundamental_div_mod_converse(n - 1, interval, r - 1, interval - 1);
        } else {
            lemma_restart_offset(interval, before, r);
            assert(before.take(r * interval) =~= pieces.take(r * interval));
        }
    }
}

proof fn lemma_first_restart(interval: int, pieces: Seq<Seq<u8>>)
    ensures
        restart_offsets(interval, pieces).len() > 0,
        restart_offsets(interval, pieces)[0] == 0,
    decreases pieces.len(),
{
    if pieces.len() > 1 {
        lemma_first_restart(interval, pieces.drop_last());
    }
}

/// An empty block has one restart point, at its start.
pub proof fn lemma_empty_blocks(interval: int)
    ensures
        parsed(data_block(interval, Seq::empty())) == Ok::<(Seq<u8>, Seq<u32>), FormatError>(
            (Seq::empty(), seq![0u32]),
        ),
        parsed(index_block(interval, Seq::empty())) == Ok::<(Seq<u8>, Seq<u32>), FormatError>(
            (Seq::empty(), seq![0u32]),
        ),
{
    let pieces = entry_pieces(interval, Seq::empty());
    assert(pieces =~= Seq::<Seq<u8>>::empty());
    assert(index_pieces(interval, Seq::empty()) =~= Seq::<Seq<u8>>::empty());
    lemma_sealed_parses(Seq::empty(), seq![0u32]);
}

/// The bytes of an empty block.
pub proof fn lemma_empty_block_len(interval: int)
    ensures
        data_block(interval, Seq::empty()).len() == 8,
{
    let pieces = entry_pieces(interval, Seq::empty());
    assert(pieces =~= Seq::<Seq<u8>>::empty());
    lemma_number_bytes(seq![0u32]);
    lemma_sealed_len(Seq::empty(), seq![0u32]);
}

/// What one more entry adds to a data block: how many bytes of the key before it
/// are kept, how many are added and how long the value is, as varints, then the
/// added bytes and the value. All that the two keys have in common is kept, but
/// nothing where the number of entries is a multiple of the interval; there the
/// place of the entry is added to the restart points.
#[verifier::rlimit(50)]
pub proof fn lemma_data_block_grows(
    interval: int,
    entries: Seq<Entry>,
    key: Seq<u8>,
    value: Seq<u8>,
) -> (kept: int)
    requires
        interval >= 1,
        key.len() <= u32::MAX,
        value.len() <= u32::MAX,
        entries.len() < interval * u32::MAX,
    ensures
        0 <= kept <= key.len(),
        entries.len() as int % interval == 0 ==> kept == 0,
        entries.len() as int % interval != 0 ==> ({
            let last = entries.last().0;
            &&& kept <= last.len()
            &&& forall|i: int| 0 <= i < kept ==> key[i] == last[i]
            &&& kept == key.len() || kept == last.len() || key[kept] != last[kept]
        }),
        ({
            &&& parsed(data_block(interval, entries)) matches Ok((bytes, restarts))
            &&& parsed(data_block(interval, entries.push((key, value)))) matches Ok((more, points))
            &&& more == bytes + (varint(kept as nat) + varint((key.len() - kept) as nat) + varint(
                value.len(),
            ) + key.skip(kept) + value)
            &&& points == if entries.len() > 0 && entries.len() as int % interval == 0 {
                restarts.push(bytes.len() as u32)
            } else {
                restarts
            }
        }),
{
    let n = entries.len() as int;
    let after = entries.push((key, value));
    let pieces = entry_pieces(interval, entries);
    let grown = entry_pieces(interval, after);
    let kept = shared_len(interval, after[n - 1].0, key, n);
    lemma_entry_pieces_push(interval, entries, key, value);
    lemma_since_restart(interval, 0);
    lemma_common_prefix(after[n - 1].0, key);
    assert(grown == pieces.push(entry_piece(kept, key, value)));
    assert(grown.drop_last() =~= pieces);
    lemma_restarts_countable(interval, pieces);
    lemma_restarts_countable(interval, grown);
    lemma_sealed_parses(joined(pieces), restart_offsets(interval, pieces));
    lemma_sealed_parses(joined(grown), restart_offsets(interval, grown));
    if n > 0 {
        assert(after[n - 1] == entries.last());
    }
    kept
}

/// What one more entry adds to an index block: how many bytes of the key before
/// it are kept and how many are added, as varints, the added bytes, and the
/// handle: its offset and size as varints where nothing is kept, else only by how
/// much its size differs from that of the block before.
#[verifier::rlimit(50)]
pub proof fn lemma_index_block_grows(
    interval: int,
    entries: Seq<IndexEntry>,
    key: Seq<u8>,
    handle: BlockHandle,
) -> (kept: int)
    requires
        interval >= 1,
        key.len() <= u32::MAX,
        entries.len() < interval * u32::MAX,
        handle.size <= i64::MAX,
        entries.len() > 0 ==> entries.last().1.size <= i64::MAX,
    ensures
        0 <= kept <= key.len(),
        entries.len() as int % interval == 0 ==> kept == 0,
        entries.len() as int % interval != 0 ==> ({
            let last = entries.last().0;
            &&& kept <= last.len()
            &&& forall|i: int| 0 <= i < kept ==> key[i] == last[i]
            &&& kept == key.len() || kept == last.len() || key[kept] != last[kept]
        }),
        ({
            &&& parsed(index_block(interval, entries)) matches Ok((bytes, restarts))
            &&& parsed(index_block(interval, entries.push((key, handle)))) matches Ok(
                (more, points),
            )
            &&& more == bytes + (varint(kept as nat) + varint((key.len() - kept) as nat)
                + key.skip(kept) + if kept == 0 {
                varint(handle.offset as nat) + varint(handle.size as nat)
            } else if handle.size >= entries.last().1.size {
                varint((2 * (handle.size - entries.last().1.size)) as nat)
            } else {
                varint((2 * (entries.last().1.size - handle.size) - 1) as nat)
            })
            &&& points == if entries.len() > 0 && entries.len() as int % interval == 0 {
                restarts.push(bytes.len() as u32)
            } else {
                restarts
            }
        }),
{
    let n = entries.len() as int;
    let after = entries.push((key, handle));
    let pieces = index_pieces(interval, entries);
    let grown = index_pieces(interval, after);
    let kept = shared_len(interval, after[n - 1].0, key, n);
    lemma_index_pieces_push(interval, entries, key, handle);
    lemma_since_restart(interval, 0);
    lemma_common_prefix(after[n - 1].0, key);
    assert(grown == pieces.push(index_piece(kept, key, after[n - 1].1, handle)));
    assert(grown.drop_last() =~= pieces);
    lemma_restarts_countable(interval, pieces);
    lemma_restarts_countable(interval, grown);
    lemma_sealed_parses(joined(pieces), restart_offsets(interval, pieces));
    lemma_sealed_parses(joined(grown), restart_offsets(interval, grown));
    if n > 0 {
        assert(after[n - 1] == entries.last());
    }
    kept
}

/// A block can be entered at every restart point: the entry there is read
/// without the key before it.
pub proof fn lemma_restart_points(interval: int, entries: Seq<Entry>, i: int)
    requires
        interval >= 1,
        lengths_fit(entries),
        data_block(interval, entries).len() <= u32::MAX,
        0 <= i,
        i * interval < entries.len(),
    ensures
        ({
            &&& parsed(data_block(interval, entries)) matches Ok((bytes, restarts))
            &&& i < restarts.len()
            &&& entry_at(bytes, restarts[i] as int, Seq::empty()) matches Ok((key, value, _))
            &&& key == entries[i * interval].0
            &&& value == entries[i * interval].1
        }),
{
    let pieces = entry_pieces(interval, entries);
    let restarts = restart_offsets(interval, pieces);
    let k = i * interval;
    assert(k >= 0) by (nonlinear_arith)
        requires
            k == i * interval,
            i >= 0,
            interval >= 1,
    ;
    lemma_number_bytes(restarts);
    lemma_sealed_len(joined(pieces), restarts);
    lemma_sealed_parses(joined(pieces), restarts);
    lemma_restart_offset(interval, pieces, i);
    lemma_piece_at(pieces, k);
    assert(k == interval * i + 0) by (nonlinear_arith)
        requires
            k == i * interval,
    ;
    lemma_fundamental_div_mod_converse(k, interval, i, 0);
    assert(entries[k].0.len() <= u32::MAX);
    let (key, value) = entries[k];
    assert(Seq::<u8>::empty().take(0) =~= key.take(0));
    lemma_entry_piece_read(joined(pieces), piece_start(pieces, k), Seq::empty(), 0, key, value);
}

/// The same for an index block: at a restart point both the key and the handle
/// are read without what is before.
pub proof fn lemma_index_restart_points(interval: int, entries: Seq<IndexEntry>, i: int)
    requires
        interval >= 1,
        index_entries_fit(interval, entries),
        index_block(interval, entries).len() <= u32::MAX,
        0 <= i,
        i * interval < entries.len(),
    ensures
        ({
            &&& parsed(index_block(interval, entries)) matches Ok((bytes, restarts))
            &&& restarts.len() == (entries.len() - 1) / interval + 1
            &&& i < restarts.len()
            &&& index_entry_at(
                bytes,
                restarts,
                restarts[i] as int,
                Seq::empty(),
                None,
            ) matches Ok((key, handle, _))
            &&& key == entries[i * interval].0
            &&& handle == entries[i * interval].1
        }),
{
    let pieces = index_pieces(interval, entries);
    let restarts = restart_offsets(interval, pieces);
    let k = i * interval;
    assert(k >= 0) by (nonlinear_arith)
        requires
            k == i * interval,
            i >= 0,
            interval >= 1,
    ;
    lemma_number_bytes(restarts);
    lemma_sealed_len(joined(pieces), restarts);
    lemma_sealed_parses(joined(pieces), restarts);
    lemma_restart_number(interval, pieces);
    lemma_restart_offset(interval, pieces, i);
    lemma_piece_at(pieces, k);
    assert(k == interval * i + 0) by (nonlinear_arith)
        requires
            k == i * interval,
    ;
    lemma_fundamental_div_mod_converse(k, interval, i, 0);
    assert(entries[k].0.len() <= u32::MAX);
    let (key, handle) = entries[k];
    assert(Seq::<u8>::empty().take(0) =~= key.take(0));
    lemma_index_piece_read(
        joined(pieces),
        restarts,
        piece_start(pieces, k),
        Seq::empty(),
        entries[k - 1].1,
        0,
        key,
        handle,
    );
}

} // verus!
