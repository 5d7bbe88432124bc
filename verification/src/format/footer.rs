//! The footer: the fixed-size last bytes of a file.

use crate::entry::append_bytes;
use crate::error::FormatError;
use crate::format::checksum::{
    checksum_at, checksum_of, checksum_type_of, compute_checksum, place_checksum, placed,
};
use crate::format::varint::{get_varint64, varint64_at};
use vstd::bytes::*;
use vstd::prelude::*;
use vstd::slice::slice_subrange;

pub use crate::format::checksum::ChecksumType;

verus! {

pub const BLOCK_BASED_TABLE_MAGIC: u64 = 0x88e2_41b7_85f4_cff7;

pub const MAGIC_NUMBER_LEN: usize = 8;

/// Length of two handles of two varints each.
pub const BLOCK_HANDLES_LEN: usize = 40;

/// Length of a footer: checksum type, handles, format version, magic number.
pub const MAX_FOOTER_ENCODED_LEN: usize = 53;

/// How many bytes at the end of a file `decode_footer` needs.
pub const FOOTER_TAIL_LEN: usize = MAX_FOOTER_ENCODED_LEN;

/// Marks a footer of format version 6 or later.
pub const EXTENDED_MAGIC: u32 = 0x007a_003e;

/// Length of the compression byte and the checksum that follow every block.
pub const BLOCK_TRAILER_SIZE: usize = 5;

/// Where a block is and how many bytes it has, its trailer left out.
#[derive(Debug, Clone, Copy, PartialEq, Eq, Structural)]
pub struct BlockHandle {
    pub offset: u64,
    pub size: u64,
}

/// A decoded footer.
#[derive(Debug, Clone, Copy, PartialEq, Eq, Structural)]
pub struct Footer {
    pub table_magic_number: u64,
    pub format_version: u32,
    pub checksum_type: ChecksumType,
    pub metaindex_handle: BlockHandle,
    /// Present before format version 6. Later the metaindex block holds it.
    pub index_handle: Option<BlockHandle>,
    pub block_trailer_size: usize,
    /// Zero before format version 6.
    pub base_context_checksum: u32,
}

/// Two varints at `pos`: a handle and the position after it.
pub open spec fn handle_at(buf: Seq<u8>, pos: int) -> Option<(BlockHandle, int)> {
    match varint64_at(buf, pos) {
        Some((offset, mid)) => match varint64_at(buf, mid) {
            Some((size, end)) => Some((BlockHandle { offset, size }, end)),
            None => None,
        },
        None => None,
    }
}

/// Reads a handle. The position moves past it where there is one.
pub fn decode_block_handle(buf: &[u8], pos: &mut usize) -> (r: Option<BlockHandle>)
    ensures
        match handle_at(buf@, *old(pos) as int) {
            Some((handle, end)) => r == Some(handle) && *final(pos) == end,
            None => r is None,
        },
{
    match get_varint64(buf, pos) {
        Some(offset) => match get_varint64(buf, pos) {
            Some(size) => Some(BlockHandle { offset, size }),
            None => None,
        },
        None => None,
    }
}

/// A footer of format version 6 or later that states `checksum`.
pub open spec fn footer_stating(
    checksum: u32,
    format_version: u32,
    checksum_type: ChecksumType,
    metaindex_size: u32,
    base_context_checksum: u32,
) -> Seq<u8> {
    seq![checksum_type.byte()] + spec_u32_to_le_bytes(EXTENDED_MAGIC) + spec_u32_to_le_bytes(
        checksum,
    ) + spec_u32_to_le_bytes(base_context_checksum) + spec_u32_to_le_bytes(metaindex_size)
        + Seq::new(24, |i: int| 0u8) + spec_u32_to_le_bytes(format_version) + spec_u64_to_le_bytes(
        BLOCK_BASED_TABLE_MAGIC,
    )
}

/// The footer that stands at `footer_offset`. Its checksum is taken while the
/// checksum field is zero.
pub open spec fn footer_bytes(
    format_version: u32,
    checksum_type: ChecksumType,
    metaindex_size: u32,
    base_context_checksum: u32,
    footer_offset: u64,
) -> Seq<u8> {
    let blank = footer_stating(
        0,
        format_version,
        checksum_type,
        metaindex_size,
        base_context_checksum,
    );
    footer_stating(
        checksum_at(checksum_type, blank, base_context_checksum, footer_offset),
        format_version,
        checksum_type,
        metaindex_size,
        base_context_checksum,
    )
}

/// The bytes of `tail` with the checksum field zeroed.
pub open spec fn with_blank_checksum(tail: Seq<u8>) -> Seq<u8> {
    tail.take(5) + spec_u32_to_le_bytes(0) + tail.skip(9)
}

/// The part of a footer that format version 6 introduced, where `checksum` was
/// computed of the footer with the checksum field zeroed.
pub open spec fn checked_footer(
    tail: Seq<u8>,
    footer_offset: int,
    format_version: u32,
    checksum_type: ChecksumType,
    checksum: u32,
) -> Result<Footer, FormatError> {
    let found = spec_u32_from_le_bytes(tail.subrange(1, 5));
    let stored = spec_u32_from_le_bytes(tail.subrange(5, 9));
    let base_context_checksum = spec_u32_from_le_bytes(tail.subrange(9, 13));
    let metaindex_size = spec_u32_from_le_bytes(tail.subrange(13, 17));
    let reserved = spec_u64_from_le_bytes(tail.subrange(33, 41));
    let computed = placed(checksum, base_context_checksum, footer_offset as u64);
    if found != EXTENDED_MAGIC {
        Err(FormatError::BadExtendedMagic { found })
    } else if checksum_type != ChecksumType::NoChecksum && computed != stored {
        Err(FormatError::FooterChecksumMismatch { offset: footer_offset as u64, stored, computed })
    } else if footer_offset < BLOCK_TRAILER_SIZE + metaindex_size {
        Err(FormatError::MetaindexBeforeFile)
    } else if reserved != 0 {
        Err(FormatError::FutureFeature)
    } else {
        Ok(
            Footer {
                table_magic_number: BLOCK_BASED_TABLE_MAGIC,
                format_version,
                checksum_type,
                metaindex_handle: BlockHandle {
                    offset: (footer_offset - BLOCK_TRAILER_SIZE - metaindex_size) as u64,
                    size: metaindex_size as u64,
                },
                index_handle: None,
                block_trailer_size: BLOCK_TRAILER_SIZE,
                base_context_checksum,
            },
        )
    }
}

/// The part of a footer before format version 6: two handles.
pub open spec fn old_footer_at(
    tail: Seq<u8>,
    format_version: u32,
    checksum_type: ChecksumType,
) -> Result<Footer, FormatError> {
    let part = tail.subrange(1, tail.len() - 12);
    match handle_at(part, 0) {
        Some((metaindex_handle, mid)) => match handle_at(part, mid) {
            Some((index_handle, _)) => Ok(
                Footer {
                    table_magic_number: BLOCK_BASED_TABLE_MAGIC,
                    format_version,
                    checksum_type,
                    metaindex_handle,
                    index_handle: Some(index_handle),
                    block_trailer_size: BLOCK_TRAILER_SIZE,
                    base_context_checksum: 0,
                },
            ),
            None => Err(FormatError::BadIndexHandle),
        },
        None => Err(FormatError::BadMetaindexHandle),
    }
}

/// What the last bytes of a file of `file_size` bytes say.
pub open spec fn footer_at(tail: Seq<u8>, file_size: u64) -> Result<Footer, FormatError> {
    let n = tail.len() as int;
    let magic = spec_u64_from_le_bytes(tail.subrange(n - 8, n));
    let format_version = spec_u32_from_le_bytes(tail.subrange(n - 12, n - 8));
    if n < FOOTER_TAIL_LEN {
        Err(FormatError::FooterTooShort)
    } else if magic != BLOCK_BASED_TABLE_MAGIC {
        Err(FormatError::UnknownMagic { magic })
    } else if !(2 <= format_version <= 7) {
        Err(FormatError::UnsupportedVersion { format_version })
    } else if file_size < FOOTER_TAIL_LEN {
        Err(FormatError::FileTooShort)
    } else {
        match checksum_type_of(tail[0]) {
            None => Err(FormatError::UnknownChecksumType { byte: tail[0] }),
            Some(checksum_type) => if format_version >= 6 {
                checked_footer(
                    tail,
                    file_size - FOOTER_TAIL_LEN,
                    format_version,
                    checksum_type,
                    checksum_of(checksum_type, with_blank_checksum(tail)),
                )
            } else {
                old_footer_at(tail, format_version, checksum_type)
            },
        }
    }
}

/// Encodes a footer of format version 6 or later for the place `footer_offset`.
pub fn encode_footer_v6_plus(
    format_version: u32,
    checksum_type: ChecksumType,
    metaindex_handle: BlockHandle,
    base_context_checksum: u32,
    footer_offset: u64,
) -> (r: Vec<u8>)
    requires
        format_version >= 6,
        metaindex_handle.size <= u32::MAX,
    ensures
        r@ == footer_bytes(
            format_version,
            checksum_type,
            metaindex_handle.size as u32,
            base_context_checksum,
            footer_offset,
        ),
{
    let metaindex_size: u32 = metaindex_handle.size as u32;
    let blank = footer_with_checksum(
        0,
        format_version,
        checksum_type,
        metaindex_size,
        base_context_checksum,
    );
    let checksum: u32 = compute_checksum(checksum_type, blank.as_slice());
    footer_with_checksum(
        place_checksum(checksum, base_context_checksum, footer_offset),
        format_version,
        checksum_type,
        metaindex_size,
        base_context_checksum,
    )
}

/// A footer that states the checksum it is given.
pub fn footer_with_checksum(
    checksum: u32,
    format_version: u32,
    checksum_type: ChecksumType,
    metaindex_size: u32,
    base_context_checksum: u32,
) -> (r: Vec<u8>)
    ensures
        r@ == footer_stating(
            checksum,
            format_version,
            checksum_type,
            metaindex_size,
            base_context_checksum,
        ),
{
    let mut buf: Vec<u8> = Vec::with_capacity(MAX_FOOTER_ENCODED_LEN);
    buf.push(checksum_type.to_byte());
    append_bytes(&mut buf, u32_to_le_bytes(EXTENDED_MAGIC).as_slice());
    append_bytes(&mut buf, u32_to_le_bytes(checksum).as_slice());
    append_bytes(&mut buf, u32_to_le_bytes(base_context_checksum).as_slice());
    append_bytes(&mut buf, u32_to_le_bytes(metaindex_size).as_slice());
    let reserved: Vec<u8> = vec![0u8; 24];
    append_bytes(&mut buf, reserved.as_slice());
    append_bytes(&mut buf, u32_to_le_bytes(format_version).as_slice());
    append_bytes(&mut buf, u64_to_le_bytes(BLOCK_BASED_TABLE_MAGIC).as_slice());
    assert(reserved@ =~= Seq::new(24, |i: int| 0u8));
    assert(buf@ =~= footer_stating(
        checksum,
        format_version,
        checksum_type,
        metaindex_size,
        base_context_checksum,
    ));
    buf
}

fn blank_checksum(tail: &[u8]) -> (r: Vec<u8>)
    requires
        tail@.len() >= 9,
    ensures
        r@ == with_blank_checksum(tail@),
{
    let mut zeroed: Vec<u8> = Vec::with_capacity(tail.len());
    append_bytes(&mut zeroed, slice_subrange(tail, 0, 5));
    append_bytes(&mut zeroed, u32_to_le_bytes(0).as_slice());
    append_bytes(&mut zeroed, slice_subrange(tail, 9, tail.len()));
    assert(zeroed@ =~= with_blank_checksum(tail@));
    zeroed
}

/// Computes `checked_footer`.
pub fn check_footer(
    tail: &[u8],
    footer_offset: u64,
    format_version: u32,
    checksum_type: ChecksumType,
    checksum: u32,
) -> (r: Result<Footer, FormatError>)
    requires
        tail@.len() >= FOOTER_TAIL_LEN,
    ensures
        r == checked_footer(
            tail@,
            footer_offset as int,
            format_version,
            checksum_type,
            checksum,
        ),
{
    let found: u32 = u32_from_le_bytes(slice_subrange(tail, 1, 5));
    if found != EXTENDED_MAGIC {
        return Err(FormatError::BadExtendedMagic { found });
    }
    let stored: u32 = u32_from_le_bytes(slice_subrange(tail, 5, 9));
    let base_context_checksum: u32 = u32_from_le_bytes(slice_subrange(tail, 9, 13));
    let metaindex_size: u64 = u32_from_le_bytes(slice_subrange(tail, 13, 17)) as u64;
    let computed: u32 = place_checksum(checksum, base_context_checksum, footer_offset);
    if checksum_type != ChecksumType::NoChecksum && computed != stored {
        return Err(
            FormatError::FooterChecksumMismatch { offset: footer_offset, stored, computed },
        );
    }
    if footer_offset < BLOCK_TRAILER_SIZE as u64 + metaindex_size {
        return Err(FormatError::MetaindexBeforeFile);
    }
    // Sixteen reserved bytes are skipped, the next eight have to be zero.
    let reserved: u64 = u64_from_le_bytes(slice_subrange(tail, 33, 41));
    if reserved != 0 {
        return Err(FormatError::FutureFeature);
    }
    Ok(
        Footer {
            table_magic_number: BLOCK_BASED_TABLE_MAGIC,
            format_version,
            checksum_type,
            metaindex_handle: BlockHandle {
                offset: footer_offset - BLOCK_TRAILER_SIZE as u64 - metaindex_size,
                size: metaindex_size,
            },
            index_handle: None,
            block_trailer_size: BLOCK_TRAILER_SIZE,
            base_context_checksum,
        },
    )
}

/// Decodes the footer of a file of `file_size` bytes from its last bytes.
pub fn decode_footer(tail: &[u8], file_size: u64) -> (r: Result<Footer, FormatError>)
    ensures
        r == footer_at(tail@, file_size),
{
    if tail.len() < FOOTER_TAIL_LEN {
        return Err(FormatError::FooterTooShort);
    }
    let magic_pos: usize = tail.len() - MAGIC_NUMBER_LEN;
    let magic: u64 = u64_from_le_bytes(slice_subrange(tail, magic_pos, tail.len()));
    if magic != BLOCK_BASED_TABLE_MAGIC {
        return Err(FormatError::UnknownMagic { magic });
    }
    let format_version: u32 = u32_from_le_bytes(slice_subrange(tail, magic_pos - 4, magic_pos));
    if format_version < 2 || format_version > 7 {
        return Err(FormatError::UnsupportedVersion { format_version });
    }
    if file_size < FOOTER_TAIL_LEN as u64 {
        return Err(FormatError::FileTooShort);
    }
    let footer_offset: u64 = file_size - FOOTER_TAIL_LEN as u64;
    let checksum_type = match ChecksumType::from_byte(tail[0]) {
        Some(ty) => ty,
        None => {
            return Err(FormatError::UnknownChecksumType { byte: tail[0] });
        },
    };

    if format_version >= 6 {
        let zeroed = blank_checksum(tail);
        let checksum: u32 = compute_checksum(checksum_type, zeroed.as_slice());
        check_footer(tail, footer_offset, format_version, checksum_type, checksum)
    } else {
        let part = slice_subrange(tail, 1, magic_pos - 4);
        let mut pos: usize = 0;
        let metaindex_handle = match decode_block_handle(part, &mut pos) {
            Some(handle) => handle,
            None => {
                return Err(FormatError::BadMetaindexHandle);
            },
        };
        let index_handle = match decode_block_handle(part, &mut pos) {
            Some(handle) => handle,
            None => {
                return Err(FormatError::BadIndexHandle);
            },
        };
        Ok(
            Footer {
                table_magic_number: magic,
                format_version,
                checksum_type,
                metaindex_handle,
                index_handle: Some(index_handle),
                block_trailer_size: BLOCK_TRAILER_SIZE,
                base_context_checksum: 0,
            },
        )
    }
}

/// Every footer has the same length.
pub proof fn lemma_footer_len(
    format_version: u32,
    checksum_type: ChecksumType,
    metaindex_size: u32,
    base_context_checksum: u32,
    footer_offset: u64,
)
    ensures
        footer_bytes(
            format_version,
            checksum_type,
            metaindex_size,
            base_context_checksum,
            footer_offset,
        ).len() == FOOTER_TAIL_LEN,
{
    lemma_auto_spec_u32_to_from_le_bytes();
    lemma_auto_spec_u64_to_from_le_bytes();
}

/// What a read gives back of a write: a footer of a version that can be read,
/// written where its metaindex block and trailer have just ended, decodes to
/// what went into it.
pub proof fn lemma_footer_round_trip(
    format_version: u32,
    checksum_type: ChecksumType,
    metaindex_handle: BlockHandle,
    base_context_checksum: u32,
)
    requires
        6 <= format_version <= 7,
        metaindex_handle.size <= u32::MAX,
        metaindex_handle.offset + metaindex_handle.size + BLOCK_TRAILER_SIZE + FOOTER_TAIL_LEN
            <= u64::MAX,
    ensures
        ({
            let footer_offset = (metaindex_handle.offset + metaindex_handle.size
                + BLOCK_TRAILER_SIZE) as u64;
            let bytes = footer_bytes(
                format_version,
                checksum_type,
                metaindex_handle.size as u32,
                base_context_checksum,
                footer_offset,
            );
            &&& bytes.len() == FOOTER_TAIL_LEN
            &&& footer_at(bytes, (footer_offset + FOOTER_TAIL_LEN) as u64) == Ok::<
                Footer,
                FormatError,
            >(
                Footer {
                    table_magic_number: BLOCK_BASED_TABLE_MAGIC,
                    format_version,
                    checksum_type,
                    metaindex_handle,
                    index_handle: None,
                    block_trailer_size: BLOCK_TRAILER_SIZE,
                    base_context_checksum,
                },
            )
        }),
{
    lemma_auto_spec_u32_to_from_le_bytes();
    lemma_auto_spec_u64_to_from_le_bytes();
    let footer_offset = (metaindex_handle.offset + metaindex_handle.size + BLOCK_TRAILER_SIZE)
        as u64;
    let size = metaindex_handle.size as u32;
    let blank = footer_stating(0, format_version, checksum_type, size, base_context_checksum);
    let sum = checksum_at(checksum_type, blank, base_context_checksum, footer_offset);
    let bytes = footer_stating(sum, format_version, checksum_type, size, base_context_checksum);
    assert(bytes.len() == 53);
    assert(bytes.subrange(45, 53) =~= spec_u64_to_le_bytes(BLOCK_BASED_TABLE_MAGIC));
    assert(bytes.subrange(41, 45) =~= spec_u32_to_le_bytes(format_version));
    assert(bytes.subrange(1, 5) =~= spec_u32_to_le_bytes(EXTENDED_MAGIC));
    assert(bytes.subrange(5, 9) =~= spec_u32_to_le_bytes(sum));
    assert(bytes.subrange(9, 13) =~= spec_u32_to_le_bytes(base_context_checksum));
    assert(bytes.subrange(13, 17) =~= spec_u32_to_le_bytes(size));
    lemma_zero_bytes();
    assert(bytes.subrange(33, 41) =~= spec_u64_to_le_bytes(0));
    assert(with_blank_checksum(bytes) =~= blank);
}

proof fn lemma_zero_bytes()
    ensures
        spec_u64_to_le_bytes(0) == Seq::new(8, |i: int| 0u8),
{
    spec_u64_to_le_bytes_to_open(0);
    assert(0u64 & 0xff == 0 && (0u64 >> 8) & 0xff == 0 && (0u64 >> 16) & 0xff == 0 && (0u64 >> 24)
        & 0xff == 0 && (0u64 >> 32) & 0xff == 0 && (0u64 >> 40) & 0xff == 0 && (0u64 >> 48) & 0xff
        == 0 && (0u64 >> 56) & 0xff == 0) by (bit_vector);
    assert(spec_u64_to_le_bytes(0) =~= Seq::new(8, |i: int| 0u8));
}

} // verus!
