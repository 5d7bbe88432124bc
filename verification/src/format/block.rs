//! Reading blocks: the trailer, the restart array and the entries.
//!
//! A block on disk is its contents, one byte that names their compression and
//! a checksum. The uncompressed contents of a data or index block are entries,
//! then the offsets of those that start a restart interval, then how many
//! such offsets there are.

use crate::entry::{append_bytes, visit_all, Entry, EntryVisitor};
use crate::error::FormatError;
use crate::format::checksum::{
    checksum_at, checksum_of, compute_checksum, place_checksum, placed, ChecksumType,
};
use crate::format::codec::{compression_of, decompress_block, decompressed};
use crate::format::footer::BlockHandle;
use crate::format::varint::{get_varint32, lemma_varint_groups_end, varint32_at};
use vstd::bytes::*;
use vstd::prelude::*;
use vstd::slice::slice_subrange;

pub use crate::format::codec::CompressionType;
pub use crate::format::footer::BLOCK_TRAILER_SIZE;
pub use crate::format::index::for_each_index_entry;

verus! {

/// How many bytes of the file hold a block and its trailer.
pub fn block_read_len(handle: BlockHandle) -> (r: usize)
    requires
        handle.size + BLOCK_TRAILER_SIZE <= usize::MAX,
    ensures
        r == handle.size + BLOCK_TRAILER_SIZE,
{
    handle.size as usize + BLOCK_TRAILER_SIZE
}

/// Contents, the byte for no compression, and the checksum of both.
pub open spec fn stored_block(
    contents: Seq<u8>,
    offset: u64,
    checksum_type: ChecksumType,
    base_context_checksum: u32,
) -> Seq<u8> {
    let summed = contents.push(CompressionType::NoCompression.byte());
    summed + spec_u32_to_le_bytes(
        checksum_at(checksum_type, summed, base_context_checksum, offset),
    )
}

/// Appends a trailer to the uncompressed contents of a block that will stand
/// at `offset`.
pub fn encode_block_with_trailer(
    raw_contents: Vec<u8>,
    offset: u64,
    checksum_type: ChecksumType,
    base_context_checksum: u32,
) -> (r: Vec<u8>)
    ensures
        r@ == stored_block(raw_contents@, offset, checksum_type, base_context_checksum),
{
    let mut block = raw_contents;
    block.push(CompressionType::NoCompression.to_byte());
    let checksum: u32 = compute_checksum(checksum_type, block.as_slice());
    append_checksum(block, checksum, offset, base_context_checksum)
}

/// Appends the checksum that was computed of a block and its compression byte.
pub fn append_checksum(
    block: Vec<u8>,
    checksum: u32,
    offset: u64,
    base_context_checksum: u32,
) -> (r: Vec<u8>)
    ensures
        r@ == block@ + spec_u32_to_le_bytes(placed(checksum, base_context_checksum, offset)),
{
    let mut block = block;
    let placed: u32 = place_checksum(checksum, base_context_checksum, offset);
    append_bytes(&mut block, u32_to_le_bytes(placed).as_slice());
    block
}

/// How the block read from `handle` is compressed, where its trailer is in
/// order and `checksum` was computed of the block and its compression byte.
pub open spec fn checked_compression(
    raw: Seq<u8>,
    handle: BlockHandle,
    checksum_type: ChecksumType,
    base_context_checksum: u32,
    checksum: u32,
) -> Result<CompressionType, FormatError> {
    let size = handle.size as int;
    let computed = placed(checksum, base_context_checksum, handle.offset);
    let stored = spec_u32_from_le_bytes(raw.subrange(size + 1, size + 5));
    if raw.len() != size + BLOCK_TRAILER_SIZE {
        Err(FormatError::BlockSizeMismatch { size: handle.size, actual: raw.len() as usize })
    } else if checksum_type != ChecksumType::NoChecksum && computed != stored {
        Err(FormatError::BlockChecksumMismatch { offset: handle.offset, stored, computed })
    } else {
        compression_of(raw[size])
    }
}

/// Computes `checked_compression`.
pub fn check_trailer(
    raw_with_trailer: &[u8],
    handle: BlockHandle,
    checksum_type: ChecksumType,
    base_context_checksum: u32,
    checksum: u32,
) -> (r: Result<CompressionType, FormatError>)
    ensures
        r == checked_compression(
            raw_with_trailer@,
            handle,
            checksum_type,
            base_context_checksum,
            checksum,
        ),
{
    let total: usize = raw_with_trailer.len();
    if total < BLOCK_TRAILER_SIZE || (total - BLOCK_TRAILER_SIZE) as u64 != handle.size {
        return Err(FormatError::BlockSizeMismatch { size: handle.size, actual: total });
    }
    let raw_len: usize = total - BLOCK_TRAILER_SIZE;
    let stored: u32 = u32_from_le_bytes(
        slice_subrange(raw_with_trailer, raw_len + 1, raw_len + 5),
    );
    let computed: u32 = place_checksum(checksum, base_context_checksum, handle.offset);
    if checksum_type != ChecksumType::NoChecksum && computed != stored {
        return Err(
            FormatError::BlockChecksumMismatch { offset: handle.offset, stored, computed },
        );
    }
    CompressionType::from_byte(raw_with_trailer[raw_len])
}

/// The uncompressed contents of a block read from `handle`.
pub open spec fn block_contents(
    raw: Seq<u8>,
    handle: BlockHandle,
    checksum_type: ChecksumType,
    base_context_checksum: u32,
) -> Result<Seq<u8>, FormatError> {
    let size = handle.size as int;
    match checked_compression(
        raw,
        handle,
        checksum_type,
        base_context_checksum,
        checksum_of(checksum_type, raw.take(size + 1)),
    ) {
        Err(e) => Err(e),
        Ok(compression) => decompressed(compression, raw.take(size)),
    }
}

/// Checks the trailer of a block that was read from `handle`, and uncompresses
/// its contents. `raw_with_trailer` has to be exactly the block and its
/// trailer.
pub fn decode_block_contents(
    raw_with_trailer: Vec<u8>,
    handle: BlockHandle,
    checksum_type: ChecksumType,
    base_context_checksum: u32,
) -> (r: Result<Vec<u8>, FormatError>)
    ensures
        match block_contents(raw_with_trailer@, handle, checksum_type, base_context_checksum) {
            Ok(contents) => r matches Ok(out) && out@ == contents,
            Err(e) => r matches Err(f) && f == e,
        },
{
    let total: usize = raw_with_trailer.len();
    if total < BLOCK_TRAILER_SIZE || (total - BLOCK_TRAILER_SIZE) as u64 != handle.size {
        return Err(FormatError::BlockSizeMismatch { size: handle.size, actual: total });
    }
    let raw_len: usize = total - BLOCK_TRAILER_SIZE;
    let whole = raw_with_trailer.as_slice();
    let summed = slice_subrange(whole, 0, raw_len + 1);
    assert(summed@ =~= raw_with_trailer@.take(handle.size + 1));
    let checksum: u32 = compute_checksum(checksum_type, summed);
    let compression = match check_trailer(
        whole,
        handle,
        checksum_type,
        base_context_checksum,
        checksum,
    ) {
        Ok(compression) => compression,
        Err(e) => {
            return Err(e);
        },
    };
    if compression == CompressionType::NoCompression {
        // The buffer is at hand: drop the trailer in place.
        let mut owned = raw_with_trailer;
        owned.truncate(raw_len);
        assert(owned@ =~= raw_with_trailer@.take(handle.size as int));
        Ok(owned)
    } else {
        let raw = slice_subrange(whole, 0, raw_len);
        assert(raw@ =~= raw_with_trailer@.take(handle.size as int));
        decompress_block(compression, raw)
    }
}

/// What a read gives back of a write: the contents that went into a stored
/// block come out of it, wherever it stands and whatever its checksum.
pub proof fn lemma_stored_block_round_trip(
    contents: Seq<u8>,
    handle: BlockHandle,
    checksum_type: ChecksumType,
    base_context_checksum: u32,
)
    requires
        handle.size == contents.len(),
    ensures
        block_contents(
            stored_block(contents, handle.offset, checksum_type, base_context_checksum),
            handle,
            checksum_type,
            base_context_checksum,
        ) == Ok::<Seq<u8>, FormatError>(contents),
{
    lemma_auto_spec_u32_to_from_le_bytes();
    let size = handle.size as int;
    let raw = stored_block(contents, handle.offset, checksum_type, base_context_checksum);
    let summed = contents.push(CompressionType::NoCompression.byte());
    let sum = checksum_at(checksum_type, summed, base_context_checksum, handle.offset);
    assert(raw.take(size + 1) =~= summed);
    assert(raw.subrange(size + 1, size + 5) =~= spec_u32_to_le_bytes(sum));
    assert(raw.take(size) =~= contents);
}

/// The uncompressed contents of a block with its restart array taken apart.
pub struct ParsedBlock {
    pub contents: Vec<u8>,
    pub restarts: Vec<u32>,
}

impl ParsedBlock {
    /// Whether the contents have room for the restart array.
    pub open spec fn wf(&self) -> bool {
        4 + 4 * self.restarts@.len() <= self.contents@.len()
    }

    /// The part of the contents that holds entries.
    pub open spec fn entry_bytes(&self) -> Seq<u8> {
        self.contents@.take(self.contents@.len() - 4 - 4 * self.restarts@.len())
    }
}

/// The number in the last four bytes of a block.
pub open spec fn restart_count(contents: Seq<u8>) -> u32 {
    spec_u32_from_le_bytes(contents.subrange(contents.len() - 4, contents.len() as int))
}

/// The numbers in front of it.
pub open spec fn restart_array(contents: Seq<u8>) -> Seq<u32> {
    let start = contents.len() - 4 - 4 * restart_count(contents);
    Seq::new(
        restart_count(contents) as nat,
        |i: int| spec_u32_from_le_bytes(contents.subrange(start + 4 * i, start + 4 * i + 4)),
    )
}

/// The entry bytes and the restart array of a block.
pub open spec fn parsed(contents: Seq<u8>) -> Result<(Seq<u8>, Seq<u32>), FormatError> {
    if contents.len() < 4 {
        Err(FormatError::BlockTooSmall)
    } else if contents.len() < 4 + 4 * restart_count(contents) {
        Err(FormatError::RestartsOutOfBounds)
    } else {
        Ok(
            (
                contents.take(contents.len() - 4 - 4 * restart_count(contents)),
                restart_array(contents),
            ),
        )
    }
}

/// Takes the restart array of a block apart.
pub fn parse_block(contents: Vec<u8>) -> (r: Result<ParsedBlock, FormatError>)
    ensures
        match parsed(contents@) {
            Ok((entry_bytes, restarts)) => {
                &&& r matches Ok(block)
                &&& block.wf()
                &&& block.contents@ == contents@
                &&& block.restarts@ == restarts
                &&& block.entry_bytes() == entry_bytes
            },
            Err(e) => r matches Err(f) && f == e,
        },
{
    let n: usize = contents.len();
    if n < 4 {
        return Err(FormatError::BlockTooSmall);
    }
    let count: u32 = u32_from_le_bytes(slice_subrange(contents.as_slice(), n - 4, n));
    if (n as u64) < 4 + 4 * count as u64 {
        return Err(FormatError::RestartsOutOfBounds);
    }
    let num_restarts: usize = count as usize;
    let start: usize = n - 4 - 4 * num_restarts;
    let mut restarts: Vec<u32> = Vec::with_capacity(num_restarts);
    let mut i: usize = 0;
    while i < num_restarts
        invariant
            i <= num_restarts,
            contents@.len() == n,
            start == n - 4 - 4 * num_restarts,
            num_restarts == restart_count(contents@),
            restarts@ == restart_array(contents@).take(i as int),
        decreases num_restarts - i,
    {
        let off: usize = start + i * 4;
        restarts.push(u32_from_le_bytes(slice_subrange(contents.as_slice(), off, off + 4)));
        i = i + 1;
        assert(restarts@ =~= restart_array(contents@).take(i as int));
    }
    assert(restarts@ =~= restart_array(contents@));
    Ok(ParsedBlock { contents, restarts })
}

/// The entry at `pos` after one whose key was `last`, with the position that
/// follows it: how many bytes of `last` the key shares, how many it adds and
/// how many the value has, then the added bytes, then the value.
pub open spec fn entry_at(data: Seq<u8>, pos: int, last: Seq<u8>) -> Result<
    (Seq<u8>, Seq<u8>, int),
    FormatError,
> {
    match varint32_at(data, pos) {
        None => Err(FormatError::TruncatedShared),
        Some((shared, p1)) => match varint32_at(data, p1) {
            None => Err(FormatError::TruncatedUnshared),
            Some((unshared, p2)) => match varint32_at(data, p2) {
                None => Err(FormatError::TruncatedValueLength),
                Some((value_len, p3)) => if shared > last.len() {
                    Err(FormatError::SharedExceedsLastKey)
                } else if p3 + unshared > data.len() {
                    Err(FormatError::TruncatedKeyDelta)
                } else if p3 + unshared + value_len > data.len() {
                    Err(FormatError::TruncatedValue)
                } else {
                    Ok(
                        (
                            last.take(shared as int) + data.subrange(p3, p3 + unshared),
                            data.subrange(p3 + unshared, p3 + unshared + value_len),
                            p3 + unshared + value_len,
                        ),
                    )
                },
            },
        },
    }
}

/// The key of the entry at `pos`, whatever is wrong with its value; `None` where
/// its header or its key is broken.
pub open spec fn entry_key_at(data: Seq<u8>, pos: int, last: Seq<u8>) -> Option<Seq<u8>> {
    match varint32_at(data, pos) {
        None => None,
        Some((shared, p1)) => match varint32_at(data, p1) {
            None => None,
            Some((unshared, p2)) => match varint32_at(data, p2) {
                None => None,
                Some((_, p3)) => if shared > last.len() || p3 + unshared > data.len() {
                    None
                } else {
                    Some(last.take(shared as int) + data.subrange(p3, p3 + unshared))
                },
            },
        },
    }
}

/// Reading an entry moves on, and stays inside the data.
pub proof fn lemma_entry_at_end(data: Seq<u8>, pos: int, last: Seq<u8>)
    ensures
        entry_at(data, pos, last) matches Ok((_, _, next)) ==> pos < next <= data.len(),
{
    lemma_varint_groups_end(data, pos, 10);
    if let Some((_, p1)) = varint32_at(data, pos) {
        lemma_varint_groups_end(data, p1, 10);
        if let Some((_, p2)) = varint32_at(data, p1) {
            lemma_varint_groups_end(data, p2, 10);
        }
    }
}

/// The entries of a block from `pos` on, up to the first that is broken, and
/// what is wrong with that one.
pub open spec fn entries_from(data: Seq<u8>, pos: int, last: Seq<u8>) -> (
    Seq<Entry>,
    Option<FormatError>,
)
    decreases data.len() - pos,
{
    if pos >= data.len() {
        (Seq::empty(), None)
    } else {
        match entry_at(data, pos, last) {
            Err(e) => (Seq::empty(), Some(e)),
            Ok((key, value, next)) => {
                proof {
                    lemma_entry_at_end(data, pos, last);
                }
                let rest = entries_from(data, next, key);
                (seq![(key, value)] + rest.0, rest.1)
            },
        }
    }
}

/// The entries of a data block, up to the first that is broken.
pub open spec fn block_entries(data: Seq<u8>) -> (Seq<Entry>, Option<FormatError>) {
    entries_from(data, 0, Seq::empty())
}

/// The last key that can be read from `pos` on: that of the last entry, or that
/// of the first broken one where only its value is broken; `last` where there is
/// none.
pub open spec fn key_left_from(data: Seq<u8>, pos: int, last: Seq<u8>) -> Seq<u8>
    decreases data.len() - pos,
{
    if pos >= data.len() {
        last
    } else {
        match entry_at(data, pos, last) {
            Err(_) => match entry_key_at(data, pos, last) {
                Some(key) => key,
                None => last,
            },
            Ok((key, _, next)) => {
                proof {
                    lemma_entry_at_end(data, pos, last);
                }
                key_left_from(data, next, key)
            },
        }
    }
}

/// Without a broken entry, the last key that can be read is that of the last
/// entry.
pub proof fn lemma_key_left(data: Seq<u8>, pos: int, last: Seq<u8>)
    requires
        entries_from(data, pos, last).1 is None,
    ensures
        key_left_from(data, pos, last) == if entries_from(data, pos, last).0.len() == 0 {
            last
        } else {
            last_key(entries_from(data, pos, last).0)
        },
    decreases data.len() - pos,
{
    if pos < data.len() {
        if let Ok((key, value, next)) = entry_at(data, pos, last) {
            lemma_entry_at_end(data, pos, last);
            lemma_key_left(data, next, key);
            let rest = entries_from(data, next, key).0;
            if rest.len() > 0 {
                assert((seq![(key, value)] + rest).last() == rest.last());
            }
        }
    }
}

/// `Ok` where nothing was wrong.
pub open spec fn unless_fault(fault: Option<FormatError>) -> Result<(), FormatError> {
    match fault {
        Some(e) => Err(e),
        None => Ok(()),
    }
}

/// Visits the entries of a data block in order. `key_scratch` is a buffer for
/// keys that the caller may reuse; the last key that was read is left in it.
pub fn for_each_entry<V: EntryVisitor>(
    block: &ParsedBlock,
    key_scratch: &mut Vec<u8>,
    f: &mut V,
) -> (r: Result<(), FormatError>)
    requires
        block.wf(),
        old(f).ready(),
    ensures
        final(f).ready(),
        final(f).state() == visit_all::<V>(
            old(f).state(),
            block_entries(block.entry_bytes()).0,
        ),
        r == unless_fault(block_entries(block.entry_bytes()).1),
        final(key_scratch)@ == key_left_from(block.entry_bytes(), 0, Seq::empty()),
        r is Ok ==> final(key_scratch)@ == last_key(block_entries(block.entry_bytes()).0),
{
    let entries_end: usize = block.contents.len() - 4 - block.restarts.len() * 4;
    let data = slice_subrange(block.contents.as_slice(), 0, entries_end);
    assert(data@ =~= block.entry_bytes());
    key_scratch.clear();
    let mut pos: usize = 0;
    let ghost mut seen = Seq::<Entry>::empty();
    let ghost all = block_entries(data@);
    assert(seen + all.0 =~= all.0);
    while pos < data.len()
        invariant
            pos <= data@.len(),
            f.ready(),
            all == block_entries(data@),
            f.state() == visit_all::<V>(old(f).state(), seen),
            key_left_from(data@, pos as int, key_scratch@) == key_left_from(
                data@,
                0,
                Seq::empty(),
            ),
            all.0 == seen + entries_from(data@, pos as int, key_scratch@).0,
            all.1 == entries_from(data@, pos as int, key_scratch@).1,
            data@ == block.entry_bytes(),
        decreases data.len() - pos,
    {
        let ghost rest = entries_from(data@, pos as int, key_scratch@);
        proof {
            lemma_entry_at_end(data@, pos as int, key_scratch@);
            assert(entry_at(data@, pos as int, key_scratch@) is Err ==> all.0 =~= seen);
        }
        let parts = match decode_entry_key(data, pos, key_scratch.as_slice()) {
            Err(e) => {
                return Err(e);
            },
            Ok(parts) => parts,
        };
        let ghost last = key_scratch@;
        key_scratch.truncate(parts.shared);
        append_bytes(key_scratch, slice_subrange(data, parts.delta, parts.value));
        assert(last.take(parts.shared as int) =~= last.subrange(0, parts.shared as int));
        if parts.value_len as u64 > (data.len() - parts.value) as u64 {
            return Err(FormatError::TruncatedValue);
        }
        let end: usize = parts.value + parts.value_len as usize;
        let value = slice_subrange(data, parts.value, end);
        f.visit(key_scratch.as_slice(), value);
        proof {
            let entry = (key_scratch@, value@);
            assert(seen.push(entry).drop_last() =~= seen);
            assert(seen.push(entry) + entries_from(data@, end as int, entry.0).0 =~= seen + rest.0);
            seen = seen.push(entry);
        }
        pos = end;
    }
    assert(all.0 =~= seen);
    proof {
        lemma_key_left(data@, 0, Seq::empty());
    }
    Ok(())
}

/// The key of the last of some entries; empty where there is none.
pub open spec fn last_key(entries: Seq<Entry>) -> Seq<u8> {
    if entries.len() == 0 {
        Seq::empty()
    } else {
        entries.last().0
    }
}

/// Where the parts of an entry are.
struct EntryParts {
    /// How many bytes of the key before it are shared.
    shared: usize,
    /// Where the rest of the key starts.
    delta: usize,
    /// Where the value starts.
    value: usize,
    /// How long the value is said to be.
    value_len: u32,
}

/// Finds the parts of the entry at `pos`, down to its key.
fn decode_entry_key(data: &[u8], pos: usize, last: &[u8]) -> (r: Result<EntryParts, FormatError>)
    ensures
        match entry_key_at(data@, pos as int, last@) {
            None => {
                &&& r matches Err(f)
                &&& entry_at(data@, pos as int, last@) matches Err(e)
                &&& f == e
            },
            Some(key) => {
                &&& r matches Ok(parts)
                &&& parts.shared <= last@.len()
                &&& parts.delta <= parts.value <= data@.len()
                &&& key == last@.take(parts.shared as int) + data@.subrange(
                    parts.delta as int,
                    parts.value as int,
                )
                &&& entry_at(data@, pos as int, last@) == if parts.value + parts.value_len
                    > data@.len() {
                    Err(FormatError::TruncatedValue)
                } else {
                    Ok(
                        (
                            key,
                            data@.subrange(parts.value as int, parts.value + parts.value_len),
                            parts.value + parts.value_len,
                        ),
                    )
                }
            },
        },
{
    proof {
        lemma_varint_groups_end(data@, pos as int, 10);
    }
    let mut p: usize = pos;
    let shared: u32 = match get_varint32(data, &mut p) {
        Some(v) => v,
        None => {
            return Err(FormatError::TruncatedShared);
        },
    };
    proof {
        lemma_varint_groups_end(data@, p as int, 10);
    }
    let unshared: u32 = match get_varint32(data, &mut p) {
        Some(v) => v,
        None => {
            return Err(FormatError::TruncatedUnshared);
        },
    };
    proof {
        lemma_varint_groups_end(data@, p as int, 10);
    }
    let value_len: u32 = match get_varint32(data, &mut p) {
        Some(v) => v,
        None => {
            return Err(FormatError::TruncatedValueLength);
        },
    };
    if shared as u64 > last.len() as u64 {
        return Err(FormatError::SharedExceedsLastKey);
    }
    let left: usize = data.len() - p;
    if unshared as u64 > left as u64 {
        return Err(FormatError::TruncatedKeyDelta);
    }
    Ok(
        EntryParts {
            shared: shared as usize,
            delta: p,
            value: p + unshared as usize,
            value_len,
        },
    )
}

} // verus!
