//! Decompression of block contents.

use crate::entry::copy_bytes;
use crate::error::FormatError;
use crate::format::varint::{get_varint64, lemma_varint_groups_end, varint64_at};
use vstd::prelude::*;
use vstd::slice::slice_subrange;

verus! {

/// How the contents of a block are compressed.
#[derive(Debug, Clone, Copy, PartialEq, Eq, Structural)]
pub enum CompressionType {
    NoCompression,
    Snappy,
    Zlib,
    BZip2,
    Lz4,
    Lz4Hc,
    Xpress,
    Zstd,
}

/// The compression that a trailer byte stands for.
pub open spec fn compression_of(byte: u8) -> Result<CompressionType, FormatError> {
    if byte == 0 {
        Ok(CompressionType::NoCompression)
    } else if byte == 1 {
        Ok(CompressionType::Snappy)
    } else if byte == 2 {
        Ok(CompressionType::Zlib)
    } else if byte == 3 {
        Ok(CompressionType::BZip2)
    } else if byte == 4 {
        Ok(CompressionType::Lz4)
    } else if byte == 5 {
        Ok(CompressionType::Lz4Hc)
    } else if byte == 6 {
        Ok(CompressionType::Xpress)
    } else if byte == 7 {
        Ok(CompressionType::Zstd)
    } else {
        Err(FormatError::UnknownCompression { byte })
    }
}

impl CompressionType {
    /// The trailer byte of a compression.
    pub open spec fn byte(self) -> u8 {
        match self {
            CompressionType::NoCompression => 0,
            CompressionType::Snappy => 1,
            CompressionType::Zlib => 2,
            CompressionType::BZip2 => 3,
            CompressionType::Lz4 => 4,
            CompressionType::Lz4Hc => 5,
            CompressionType::Xpress => 6,
            CompressionType::Zstd => 7,
        }
    }

    pub fn from_byte(b: u8) -> (r: Result<Self, FormatError>)
        ensures
            r == compression_of(b),
    {
        match b {
            0x00 => Ok(CompressionType::NoCompression),
            0x01 => Ok(CompressionType::Snappy),
            0x02 => Ok(CompressionType::Zlib),
            0x03 => Ok(CompressionType::BZip2),
            0x04 => Ok(CompressionType::Lz4),
            0x05 => Ok(CompressionType::Lz4Hc),
            0x06 => Ok(CompressionType::Xpress),
            0x07 => Ok(CompressionType::Zstd),
            other => Err(FormatError::UnknownCompression { byte: other }),
        }
    }

    pub fn to_byte(self) -> (r: u8)
        ensures
            r == self.byte(),
    {
        match self {
            CompressionType::NoCompression => 0x00,
            CompressionType::Snappy => 0x01,
            CompressionType::Zlib => 0x02,
            CompressionType::BZip2 => 0x03,
            CompressionType::Lz4 => 0x04,
            CompressionType::Lz4Hc => 0x05,
            CompressionType::Xpress => 0x06,
            CompressionType::Zstd => 0x07,
        }
    }
}

/// The error of the Snappy decoder.
#[verifier::external_type_specification]
#[verifier::external_body]
pub struct ExSnapError(snap::Error);

/// The error of the LZ4 decoder.
#[verifier::external_type_specification]
#[verifier::external_body]
pub struct ExLz4Error(lz4_flex::block::DecompressError);

/// The error of the Zstd decoder.
#[verifier::external_type_specification]
#[verifier::external_body]
pub struct ExIoError(std::io::Error);

/// What the Snappy decoder makes of `data`; `None` where it fails.
pub uninterp spec fn snappy_decompressed(data: Seq<u8>) -> Option<Seq<u8>>;

/// Whether the size that `data` starts with can be allocated, where the Snappy
/// decoder goes by it: it refuses a size of more than five digits, and one of
/// more than 32 bits.
pub open spec fn snappy_size_fits(data: Seq<u8>) -> bool {
    match varint64_at(data, 0) {
        Some((size, end)) => end > 5 || size > u32::MAX || size <= isize::MAX,
        None => true,
    }
}

/// Calls `snap::raw::Decoder::decompress_vec` on a fresh decoder. Claimed is
/// only that the bytes decide whether it succeeds and with what. A size that no
/// allocation can have is ruled out: there it would panic.
#[verifier::external_body]
fn snappy_decompress(data: &[u8]) -> (r: Result<Vec<u8>, snap::Error>)
    requires
        snappy_size_fits(data@),
    ensures
        match r {
            Ok(out) => snappy_decompressed(data@) == Some(out@),
            Err(_) => snappy_decompressed(data@) is None,
        },
{
    snap::raw::Decoder::new().decompress_vec(data)
}

/// The most that the bytes behind a token's length may add to it. The LZ4
/// decoder adds them up in 32 bits; where addresses have 32 bits too, the
/// length is then added to a position in memory.
pub open spec fn lz4_length_limit() -> int {
    if usize::MAX > u32::MAX {
        u32::MAX as int
    } else {
        isize::MAX - 19
    }
}

/// What the bytes at `pos` add to a length: each 255 is followed by another
/// one, any other byte is the last.
pub open spec fn length_sum(data: Seq<u8>, pos: int) -> int
    decreases data.len() - pos,
{
    if pos < 0 || pos >= data.len() {
        0
    } else if data[pos] == 255 {
        255 + length_sum(data, pos + 1)
    } else {
        data[pos] as int
    }
}

/// Where the bytes that add to a length end, `None` if the data ends first.
pub open spec fn length_end(data: Seq<u8>, pos: int) -> Option<int>
    decreases data.len() - pos,
{
    if pos < 0 || pos >= data.len() {
        None
    } else if data[pos] == 255 {
        length_end(data, pos + 1)
    } else {
        Some(pos + 1)
    }
}

/// The length that half a token and the bytes at `pos` make, and where they
/// end; `None` if the data ends first. Fifteen says that bytes follow.
pub open spec fn length_at(data: Seq<u8>, pos: int, half: u8) -> Option<(int, int)> {
    if half < 15 {
        Some((half as int, pos))
    } else {
        match length_end(data, pos) {
            Some(end) => Some((15 + length_sum(data, pos), end)),
            None => None,
        }
    }
}

/// Whether the length at `pos` adds up to more than the LZ4 decoder can count.
pub open spec fn length_too_long(data: Seq<u8>, pos: int, half: u8) -> bool {
    half >= 15 && length_sum(data, pos) > lz4_length_limit()
}

/// Where the literals of the token at `pos` end; `None` if they do not end
/// inside the data.
pub open spec fn literals_end(data: Seq<u8>, pos: int) -> Option<int> {
    match length_at(data, pos + 1, data[pos] / 16) {
        Some((len, start)) if start + len <= data.len() => Some(start + len),
        _ => None,
    }
}

/// Whether a length from the token at `pos` on is too long for the LZ4 decoder.
/// A token is followed by a length, as many literal bytes, the two bytes of an
/// offset and another length; the last token by its literals alone.
pub open spec fn long_length_from(data: Seq<u8>, pos: int) -> bool
    decreases data.len() - pos,
{
    if pos < 0 || pos >= data.len() {
        false
    } else {
        ||| length_too_long(data, pos + 1, data[pos] / 16)
        ||| match literals_end(data, pos) {
            Some(at) => at + 2 <= data.len() && (length_too_long(data, at + 2, data[pos] % 16)
                || match length_at(data, at + 2, data[pos] % 16) {
                Some((_, next)) => pos < next <= data.len() && long_length_from(data, next),
                None => false,
            }),
            None => false,
        }
    }
}

/// Whether a length in `data` is too long for the LZ4 decoder.
pub open spec fn has_long_length(data: Seq<u8>) -> bool {
    long_length_from(data, 0)
}

/// What the LZ4 decoder makes of `data` when told that `size` bytes come out;
/// `None` where it fails.
pub uninterp spec fn lz4_decompressed(data: Seq<u8>, size: usize) -> Option<Seq<u8>>;

/// `lz4_flex::block::decompress` decodes its first argument into a buffer of
/// as many bytes as its second says. Claimed is only that these two decide
/// whether it succeeds and with what. A size that no allocation can have, and
/// a length that overflows as it is added up, are ruled out: there it would
/// panic.
pub assume_specification[ lz4_flex::block::decompress ](
    input: &[u8],
    min_uncompressed_size: usize,
) -> (r: Result<Vec<u8>, lz4_flex::block::DecompressError>)
    requires
        min_uncompressed_size <= isize::MAX,
        !has_long_length(input@),
    ensures
        match r {
            Ok(out) => lz4_decompressed(input@, min_uncompressed_size) == Some(out@),
            Err(_) => lz4_decompressed(input@, min_uncompressed_size) is None,
        },
;

/// What the Zstd decoder makes of `data` in a buffer of `size` bytes; `None`
/// where it fails.
pub uninterp spec fn zstd_decompressed(data: Seq<u8>, size: usize) -> Option<Seq<u8>>;

/// Calls `zstd::bulk::decompress_to_buffer` on a zeroed buffer of `size` bytes,
/// and cuts the buffer to the length that it returns. Claimed is only that the
/// bytes and the size decide whether it succeeds and with what. A size that no
/// allocation can have is ruled out: there it would panic.
#[verifier::external_body]
fn zstd_decompress(data: &[u8], size: usize) -> (r: Result<Vec<u8>, std::io::Error>)
    requires
        size <= isize::MAX,
    ensures
        match r {
            Ok(out) => zstd_decompressed(data@, size) == Some(out@),
            Err(_) => zstd_decompressed(data@, size) is None,
        },
{
    let mut out = vec![0u8; size];
    let written = zstd::bulk::decompress_to_buffer(data, out.as_mut_slice())?;
    out.truncate(written);
    Ok(out)
}

/// What a decoder put out, or the error that stands for its failure.
pub open spec fn or_failure(
    decoded: Option<Seq<u8>>,
    failure: FormatError,
) -> Result<Seq<u8>, FormatError> {
    match decoded {
        Some(bytes) => Ok(bytes),
        None => Err(failure),
    }
}

/// The size in front of LZ4 and Zstd payloads, and the payload.
pub open spec fn sized_payload(data: Seq<u8>) -> Result<(usize, Seq<u8>), FormatError> {
    match varint64_at(data, 0) {
        None => Err(FormatError::BadSizePrefix),
        Some((size, end)) => if size > isize::MAX {
            Err(FormatError::SizePrefixTooLarge { size })
        } else {
            Ok((size as usize, data.skip(end)))
        },
    }
}

/// The uncompressed contents of a block stored as `data`.
pub open spec fn decompressed(ty: CompressionType, data: Seq<u8>) -> Result<Seq<u8>, FormatError> {
    match ty {
        CompressionType::NoCompression => Ok(data),
        CompressionType::Snappy => if snappy_size_fits(data) {
            or_failure(snappy_decompressed(data), FormatError::SnappyFailed)
        } else {
            Err(FormatError::SizePrefixTooLarge { size: (varint64_at(data, 0)->0).0 })
        },
        CompressionType::Lz4 | CompressionType::Lz4Hc => match sized_payload(data) {
            Err(e) => Err(e),
            Ok((size, payload)) => if has_long_length(payload) {
                Err(FormatError::Lz4LengthTooLong)
            } else {
                or_failure(lz4_decompressed(payload, size), FormatError::Lz4Failed)
            },
        },
        CompressionType::Zstd => match sized_payload(data) {
            Err(e) => Err(e),
            Ok((size, payload)) => or_failure(
                zstd_decompressed(payload, size),
                FormatError::ZstdFailed,
            ),
        },
        _ => Err(FormatError::UnsupportedCompression { compression: ty }),
    }
}

/// Splits off the uncompressed size that precedes LZ4 and Zstd payloads.
pub fn split_uncompressed_size_prefix(data: &[u8]) -> (r: Result<(usize, &[u8]), FormatError>)
    ensures
        match sized_payload(data@) {
            Ok((size, payload)) => r matches Ok((s, p)) && s == size && p@ == payload,
            Err(e) => r matches Err(f) && f == e,
        },
{
    let mut pos: usize = 0;
    match get_varint64(data, &mut pos) {
        None => Err(FormatError::BadSizePrefix),
        Some(size) => if size > isize::MAX as u64 {
            Err(FormatError::SizePrefixTooLarge { size })
        } else {
            proof {
                lemma_varint_groups_end(data@, 0, 10);
            }
            let payload = slice_subrange(data, pos, data.len());
            assert(payload@ =~= data@.skip(pos as int));
            Ok((size as usize, payload))
        },
    }
}

/// Adds up the bytes behind a token's length at `pos`: the length, and where
/// those bytes end. `None` stands for a length that is too long, `Some(None)`
/// for data that end first.
fn read_length(data: &[u8], pos: usize, half: u8) -> (r: Option<Option<(usize, usize)>>)
    requires
        pos <= data@.len(),
        half <= 15,
    ensures
        length_too_long(data@, pos as int, half) <==> r is None,
        r matches Some(found) ==> match length_at(data@, pos as int, half) {
            Some((len, end)) => found matches Some((n, at)) && n == len && at == end,
            None => found is None,
        },
        r matches Some(Some((_, at))) ==> pos <= at <= data@.len(),
{
    if half < 15 {
        return Some(Some((half as usize, pos)));
    }
    let limit: usize = if usize::MAX as u64 > 0xffff_ffff {
        0xffff_ffff
    } else {
        isize::MAX as usize - 19
    };
    let mut sum: usize = 0;
    let mut at: usize = pos;
    while at < data.len()
        invariant
            half == 15,
            limit == lz4_length_limit(),
            limit + 255 <= usize::MAX,
            sum <= limit,
            pos <= at <= data@.len(),
            sum + length_sum(data@, at as int) == length_sum(data@, pos as int),
            length_end(data@, at as int) == length_end(data@, pos as int),
        decreases data@.len() - at,
    {
        let byte: u8 = data[at];
        let left: usize = limit - sum;
        if byte as usize > left {
            proof {
                lemma_length_sum_positive(data@, at + 1);
            }
            return None;
        }
        sum = sum + byte as usize;
        at = at + 1;
        if byte != 255 {
            return Some(Some((15 + sum, at)));
        }
    }
    Some(None)
}

/// A length is never negative.
proof fn lemma_length_sum_positive(data: Seq<u8>, pos: int)
    ensures
        length_sum(data, pos) >= 0,
    decreases data.len() - pos,
{
    if 0 <= pos < data.len() {
        lemma_length_sum_positive(data, pos + 1);
    }
}

/// Computes `has_long_length`.
fn find_long_length(data: &[u8]) -> (r: bool)
    ensures
        r == has_long_length(data@),
{
    let mut pos: usize = 0;
    while pos < data.len()
        invariant
            pos <= data@.len(),
            long_length_from(data@, pos as int) == has_long_length(data@),
        decreases data@.len() - pos,
    {
        let token: u8 = data[pos];
        let (len, start) = match read_length(data, pos + 1, token / 16) {
            None => {
                return true;
            },
            Some(None) => {
                return false;
            },
            Some(Some(found)) => found,
        };
        if len > data.len() - start {
            return false;
        }
        let literals_end: usize = start + len;
        if data.len() - literals_end < 2 {
            return false;
        }
        match read_length(data, literals_end + 2, token % 16) {
            None => {
                return true;
            },
            Some(None) => {
                return false;
            },
            Some(Some((_, next))) => {
                pos = next;
            },
        }
    }
    false
}

/// Uncompresses the contents of a block.
pub fn decompress_block(ty: CompressionType, data: &[u8]) -> (r: Result<Vec<u8>, FormatError>)
    ensures
        match decompressed(ty, data@) {
            Ok(bytes) => r matches Ok(out) && out@ == bytes,
            Err(e) => r matches Err(f) && f == e,
        },
{
    match ty {
        CompressionType::NoCompression => Ok(copy_bytes(data)),
        CompressionType::Snappy => {
            let mut pos: usize = 0;
            if let Some(size) = get_varint64(data, &mut pos) {
                if pos <= 5 && size <= 0xffff_ffff && size > isize::MAX as u64 {
                    return Err(FormatError::SizePrefixTooLarge { size });
                }
            }
            match snappy_decompress(data) {
                Ok(out) => Ok(out),
                Err(_) => Err(FormatError::SnappyFailed),
            }
        },
        CompressionType::Lz4 | CompressionType::Lz4Hc => {
            match split_uncompressed_size_prefix(data) {
                Err(e) => Err(e),
                Ok((size, payload)) => if find_long_length(payload) {
                    Err(FormatError::Lz4LengthTooLong)
                } else {
                    match lz4_flex::block::decompress(payload, size) {
                        Ok(out) => Ok(out),
                        Err(_) => Err(FormatError::Lz4Failed),
                    }
                },
            }
        },
        CompressionType::Zstd => match split_uncompressed_size_prefix(data) {
            Err(e) => Err(e),
            Ok((size, payload)) => match zstd_decompress(payload, size) {
                Ok(out) => Ok(out),
                Err(_) => Err(FormatError::ZstdFailed),
            },
        },
        other => Err(FormatError::UnsupportedCompression { compression: other }),
    }
}

} // verus!
