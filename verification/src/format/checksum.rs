//! The checksums that guard blocks and footers.

use vstd::prelude::*;
use vstd::slice::slice_subrange;
use vstd::wrapping::u32_specs;

verus! {

/// Which checksum a file uses.
#[derive(Debug, Clone, Copy, PartialEq, Eq, Structural)]
pub enum ChecksumType {
    NoChecksum,
    Crc32c,
    XxHash,
    XxHash64,
    XxH3,
}

/// The checksum that a footer byte stands for.
pub open spec fn checksum_type_of(byte: u8) -> Option<ChecksumType> {
    if byte == 0 {
        Some(ChecksumType::NoChecksum)
    } else if byte == 1 {
        Some(ChecksumType::Crc32c)
    } else if byte == 2 {
        Some(ChecksumType::XxHash)
    } else if byte == 3 {
        Some(ChecksumType::XxHash64)
    } else if byte == 4 {
        Some(ChecksumType::XxH3)
    } else {
        None
    }
}

impl ChecksumType {
    /// The footer byte of a checksum.
    pub open spec fn byte(self) -> u8 {
        match self {
            ChecksumType::NoChecksum => 0,
            ChecksumType::Crc32c => 1,
            ChecksumType::XxHash => 2,
            ChecksumType::XxHash64 => 3,
            ChecksumType::XxH3 => 4,
        }
    }

    pub fn from_byte(b: u8) -> (r: Option<Self>)
        ensures
            r == checksum_type_of(b),
    {
        match b {
            0x0 => Some(ChecksumType::NoChecksum),
            0x1 => Some(ChecksumType::Crc32c),
            0x2 => Some(ChecksumType::XxHash),
            0x3 => Some(ChecksumType::XxHash64),
            0x4 => Some(ChecksumType::XxH3),
            _ => None,
        }
    }

    pub fn to_byte(self) -> (r: u8)
        ensures
            r == self.byte(),
    {
        match self {
            ChecksumType::NoChecksum => 0x0,
            ChecksumType::Crc32c => 0x1,
            ChecksumType::XxHash => 0x2,
            ChecksumType::XxHash64 => 0x3,
            ChecksumType::XxH3 => 0x4,
        }
    }
}

/// The CRC-32C of `data`.
pub uninterp spec fn crc32c_of(data: Seq<u8>) -> u32;

/// `crc32c::crc32c` computes the CRC-32C of its argument. Nothing is claimed
/// of the value but that it is determined by the bytes.
pub assume_specification[ crc32c::crc32c ](data: &[u8]) -> (r: u32)
    ensures
        r == crc32c_of(data@),
;

/// The 32-bit xxHash of `data` under `seed`.
pub uninterp spec fn xxh32_of(data: Seq<u8>, seed: u32) -> u32;

/// `xxhash_rust::xxh32::xxh32` hashes its first argument under the seed that
/// is its second. Nothing is claimed of the value but that these determine it.
pub assume_specification[ xxhash_rust::xxh32::xxh32 ](input: &[u8], seed: u32) -> (r: u32)
    ensures
        r == xxh32_of(input@, seed),
;

/// The 64-bit xxHash of `data` under `seed`.
pub uninterp spec fn xxh64_of(data: Seq<u8>, seed: u64) -> u64;

/// `xxhash_rust::xxh64::xxh64` hashes its first argument under the seed that
/// is its second. Nothing is claimed of the value but that these determine it.
pub assume_specification[ xxhash_rust::xxh64::xxh64 ](input: &[u8], seed: u64) -> (r: u64)
    ensures
        r == xxh64_of(input@, seed),
;

/// The 64-bit XXH3 hash of `data`.
pub uninterp spec fn xxh3_64_of(data: Seq<u8>) -> u64;

/// `xxhash_rust::xxh3::xxh3_64` hashes its argument. Nothing is claimed of the
/// value but that the bytes determine it.
pub assume_specification[ xxhash_rust::xxh3::xxh3_64 ](input: &[u8]) -> (r: u64)
    ensures
        r == xxh3_64_of(input@),
;

/// A stored CRC is rotated right by fifteen bits and shifted by a constant.
pub open spec fn masked_crc(crc: u32) -> u32 {
    u32_specs::wrapping_add((crc >> 15) | (crc << 17), 0xa282_ead8u32)
}

/// XXH3 checksums take in the last byte by a multiplication.
pub open spec fn fold_last_byte(checksum: u32, last_byte: u8) -> u32 {
    checksum ^ u32_specs::wrapping_mul(last_byte as u32, 0x6b90_83d9u32)
}

/// The low 32 bits of a hash.
pub open spec fn low_half(hash: u64) -> u32 {
    (hash % 0x1_0000_0000) as u32
}

/// The checksum of `data`. A block is summed together with the byte that
/// names its compression, which follows it in the file.
pub open spec fn checksum_of(ty: ChecksumType, data: Seq<u8>) -> u32 {
    match ty {
        ChecksumType::NoChecksum => 0,
        ChecksumType::Crc32c => masked_crc(crc32c_of(data)),
        ChecksumType::XxHash => xxh32_of(data, 0),
        ChecksumType::XxHash64 => low_half(xxh64_of(data, 0)),
        ChecksumType::XxH3 => if data.len() == 0 {
            0
        } else {
            fold_last_byte(low_half(xxh3_64_of(data.drop_last())), data.last())
        },
    }
}

/// What is added to the checksum of a block at `offset` so that equal blocks
/// at different places have different checksums. Zero switches this off.
pub open spec fn context_modifier(base_context_checksum: u32, offset: u64) -> u32 {
    if base_context_checksum == 0 {
        0
    } else {
        base_context_checksum ^ u32_specs::wrapping_add(
            (offset % 0x1_0000_0000) as u32,
            (offset / 0x1_0000_0000) as u32,
        )
    }
}

/// The checksum `checksum` of some bytes, made to depend on where they are.
pub open spec fn placed(checksum: u32, base_context_checksum: u32, offset: u64) -> u32 {
    u32_specs::wrapping_add(checksum, context_modifier(base_context_checksum, offset))
}

/// The checksum of `data` found at `offset`.
pub open spec fn checksum_at(
    ty: ChecksumType,
    data: Seq<u8>,
    base_context_checksum: u32,
    offset: u64,
) -> u32 {
    placed(checksum_of(ty, data), base_context_checksum, offset)
}

/// Computes `checksum_of`.
pub fn compute_checksum(ty: ChecksumType, data: &[u8]) -> (r: u32)
    ensures
        r == checksum_of(ty, data@),
{
    match ty {
        ChecksumType::NoChecksum => 0,
        ChecksumType::Crc32c => mask_crc32c(crc32c::crc32c(data)),
        ChecksumType::XxHash => xxhash_rust::xxh32::xxh32(data, 0),
        ChecksumType::XxHash64 => lower_half(xxhash_rust::xxh64::xxh64(data, 0)),
        ChecksumType::XxH3 => if data.len() == 0 {
            0
        } else {
            let last: usize = data.len() - 1;
            let head = slice_subrange(data, 0, last);
            assert(head@ =~= data@.drop_last());
            modify_checksum_for_last_byte(
                lower_half(xxhash_rust::xxh3::xxh3_64(head)),
                data[last],
            )
        },
    }
}

/// Computes `fold_last_byte`.
pub fn modify_checksum_for_last_byte(checksum: u32, last_byte: u8) -> (r: u32)
    ensures
        r == fold_last_byte(checksum, last_byte),
{
    checksum ^ (last_byte as u32).wrapping_mul(0x6b90_83d9)
}

/// Computes `masked_crc`.
pub fn mask_crc32c(crc: u32) -> (r: u32)
    ensures
        r == masked_crc(crc),
{
    ((crc >> 15) | (crc << 17)).wrapping_add(0xa282_ead8)
}

/// Computes `low_half`.
pub fn lower_half(hash: u64) -> (r: u32)
    ensures
        r == low_half(hash),
{
    assert(hash & 0xffff_ffff == hash % 0x1_0000_0000) by (bit_vector);
    (hash & 0xffff_ffff) as u32
}

/// Computes `placed`.
pub fn place_checksum(checksum: u32, base_context_checksum: u32, offset: u64) -> (r: u32)
    ensures
        r == placed(checksum, base_context_checksum, offset),
{
    checksum.wrapping_add(checksum_modifier_for_context(base_context_checksum, offset))
}

/// Computes `context_modifier`.
pub fn checksum_modifier_for_context(base_context_checksum: u32, offset: u64) -> (r: u32)
    ensures
        r == context_modifier(base_context_checksum, offset),
{
    if base_context_checksum == 0 {
        return 0;
    }
    proof {
        assert(offset & 0xffff_ffff == offset % 0x1_0000_0000) by (bit_vector);
        assert(offset >> 32 == offset / 0x1_0000_0000) by (bit_vector);
    }
    let lower: u32 = (offset & 0xffff_ffff) as u32;
    let upper: u32 = (offset >> 32) as u32;
    base_context_checksum ^ lower.wrapping_add(upper)
}

} // verus!
