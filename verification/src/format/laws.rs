//! What the parts of a file are, byte by byte.

use crate::entry::Entry;
use crate::error::FormatError;
use crate::format::block::{
    block_contents, block_entries, checked_compression, entries_from, entry_at, entry_key_at,
    key_left_from, last_key, parsed, restart_count, stored_block, unless_fault, ParsedBlock,
};
use crate::format::block_builder::{
    data_block, index_entries_fit, index_entry_fits, lengths_fit, DEFAULT_RESTART_INTERVAL,
};
use crate::format::checksum::{
    checksum_of, checksum_type_of, context_modifier, crc32c_of, fold_last_byte, low_half,
    masked_crc, placed, xxh32_of, xxh3_64_of, xxh64_of, ChecksumType,
};
use crate::format::codec::{
    compression_of, decompressed, has_long_length, length_at, length_end, length_sum,
    length_too_long, literals_end, long_length_from, lz4_decompressed, sized_payload,
    snappy_decompressed, zstd_decompressed, CompressionType,
};
use crate::format::footer::{
    checked_footer, footer_at, footer_bytes, footer_stating, handle_at, BlockHandle, Footer,
    BLOCK_BASED_TABLE_MAGIC, BLOCK_HANDLES_LEN, BLOCK_TRAILER_SIZE, EXTENDED_MAGIC,
    FOOTER_TAIL_LEN, MAGIC_NUMBER_LEN, MAX_FOOTER_ENCODED_LEN,
};
use crate::format::index::{
    index_block_entries, index_entries_from, index_entry_at, index_key_at, index_key_left_from,
    last_index_key, visit_handles, HandleVisitor, IndexEntry,
};
use crate::format::internal_key::{
    is_internal_key, key_parts, packed_part, sequence_part, type_byte_part, user_part,
    value_type_of, InternalKey, ValueType, NUM_INTERNAL_BYTES,
};
use crate::format::properties::{
    handle_bytes, meta_entries, metaindex_block, sorted_by_name, PropertiesInput,
    EXTERNAL_SST_VERSION, INDEX_TYPE_BINARY_SEARCH,
};
use crate::format::sst_builder::{
    without_seqno, SstBuilderOptions, DATA_BLOCK_RESTART_INTERVAL, FORMAT_VERSION,
    INDEX_BLOCK_RESTART_INTERVAL, TARGET_BLOCK_SIZE,
};
use crate::format::varint::{
    lemma_varint32_round_trip, lemma_varint64_round_trip, varint, varint32_at, varint64_at,
    varint_groups,
};
use vstd::arithmetic::div_mod::{
    lemma_div_denominator, lemma_hoist_over_denominator, lemma_mod_multiples_vanish,
};
use vstd::arithmetic::power::{lemma_pow_adds, lemma_pow_increases, lemma_pow_positive, pow};
use vstd::bytes::*;
use vstd::prelude::*;
use vstd::string::*;

verus! {

/// The eight bytes of a number, the least significant first.
proof fn lemma_eight_bytes(p: u64)
    ensures
        ({
            let s = spec_u64_to_le_bytes(p);
            &&& s.len() == 8
            &&& p == s[0] + 0x100 * s[1] + 0x1_0000 * s[2] + 0x100_0000 * s[3] + 0x1_0000_0000
                * s[4] + 0x100_0000_0000 * s[5] + 0x1_0000_0000_0000 * s[6]
                + 0x100_0000_0000_0000 * s[7]
        }),
{
    spec_u64_to_le_bytes_to_open(p);
    assert(p == (p & 0xff) + 0x100 * ((p >> 8) & 0xff) + 0x1_0000 * ((p >> 16) & 0xff)
        + 0x100_0000 * ((p >> 24) & 0xff) + 0x1_0000_0000 * ((p >> 32) & 0xff) + 0x100_0000_0000
        * ((p >> 40) & 0xff) + 0x1_0000_0000_0000 * ((p >> 48) & 0xff) + 0x100_0000_0000_0000 * ((
    p >> 56) & 0xff)) by (bit_vector);
    assert(p & 0xff < 256 && (p >> 8) & 0xff < 256 && (p >> 16) & 0xff < 256 && (p >> 24) & 0xff
        < 256 && (p >> 32) & 0xff < 256 && (p >> 40) & 0xff < 256 && (p >> 48) & 0xff < 256 && (p
        >> 56) & 0xff < 256) by (bit_vector);
}

/// The eight bytes of a number below 256.
pub proof fn lemma_small_number_bytes(byte: u8)
    ensures
        spec_u64_to_le_bytes(byte as u64) == seq![byte] + Seq::new(7, |i: int| 0u8),
{
    let p = byte as u64;
    spec_u64_to_le_bytes_to_open(p);
    assert(p < 256 ==> p & 0xff == p && (p >> 8) & 0xff == 0 && (p >> 16) & 0xff == 0 && (p >> 24)
        & 0xff == 0 && (p >> 32) & 0xff == 0 && (p >> 40) & 0xff == 0 && (p >> 48) & 0xff == 0 && (p
        >> 56) & 0xff == 0) by (bit_vector);
    assert(spec_u64_to_le_bytes(p) =~= seq![byte] + Seq::new(7, |i: int| 0u8));
}

/// The packed suffix of an internal key is the number in its last eight bytes.
pub proof fn lemma_packed_bytes(key: Seq<u8>)
    requires
        key.len() >= 8,
    ensures
        ({
            let n = key.len() as int;
            packed_part(key) == key[n - 8] + 0x100 * key[n - 7] + 0x1_0000 * key[n - 6]
                + 0x100_0000 * key[n - 5] + 0x1_0000_0000 * key[n - 4] + 0x100_0000_0000 * key[n
                - 3] + 0x1_0000_0000_0000 * key[n - 2] + 0x100_0000_0000_0000 * key[n - 1]
        }),
{
    lemma_auto_spec_u64_to_from_le_bytes();
    let suffix = key.skip(key.len() - 8);
    lemma_eight_bytes(packed_part(key));
    assert(spec_u64_to_le_bytes(spec_u64_from_le_bytes(suffix)) == suffix);
}

/// The parts of an internal key: all but the last eight bytes are the user key,
/// the next byte is the type, and the last seven are the sequence number, its
/// least significant byte first. A shorter key is none.
pub proof fn lemma_key_bytes(key: Seq<u8>)
    ensures
        is_internal_key(key) <==> key.len() >= 8,
        key.len() >= 8 ==> ({
            let n = key.len() as int;
            &&& user_part(key).len() == n - 8
            &&& forall|i: int| 0 <= i < n - 8 ==> #[trigger] user_part(key)[i] == key[i]
            &&& type_byte_part(key) == key[n - 8]
            &&& sequence_part(key) == key[n - 7] + 0x100 * key[n - 6] + 0x1_0000 * key[n - 5]
                + 0x100_0000 * key[n - 4] + 0x1_0000_0000 * key[n - 3] + 0x100_0000_0000 * key[n
                - 2] + 0x1_0000_0000_0000 * key[n - 1]
            &&& key_parts(key).user_key == user_part(key)
            &&& key_parts(key).sequence == sequence_part(key)
        }),
{
    if key.len() >= 8 {
        lemma_packed_bytes(key);
    }
}

/// What an entry does, by the byte in front of its sequence number.
pub proof fn lemma_type_bytes(key: Seq<u8>)
    requires
        key.len() >= 8,
    ensures
        ({
            let byte = key[key.len() - 8];
            let ty = key_parts(key).value_type;
            &&& ty == ValueType::Deletion <==> byte == 0x00
            &&& ty == ValueType::Value <==> byte == 0x01
            &&& ty == ValueType::Merge <==> byte == 0x02
            &&& ty == ValueType::SingleDeletion <==> byte == 0x07
            &&& ty == ValueType::RangeDeletion <==> byte == 0x0f
            &&& ty == ValueType::BlobIndex <==> byte == 0x11
            &&& ty matches ValueType::Other(other) ==> other == byte
        }),
{
    lemma_key_bytes(key);
}

/// Of two keys of one length, the one with the larger byte at `n`, the bytes
/// behind it the same, has the larger packed suffix.
pub proof fn lemma_newer_key(a: Seq<u8>, b: Seq<u8>, n: int)
    requires
        8 <= a.len() == b.len(),
        a.len() - 8 <= n < a.len(),
        forall|i: int| n < i < a.len() ==> a[i] == b[i],
        a[n] > b[n],
    ensures
        packed_part(a) > packed_part(b),
{
    lemma_packed_bytes(a);
    lemma_packed_bytes(b);
}

/// The checksum of bytes, by its type, at every length: a CRC is rotated right
/// by fifteen bits and shifted by a constant; of a hash of 64 bits the lower
/// half counts; XXH3 hashes all but the last byte and takes that one in by a
/// multiplication.
pub proof fn lemma_checksums(data: Seq<u8>)
    ensures
        checksum_of(ChecksumType::NoChecksum, data) == 0,
        checksum_of(ChecksumType::Crc32c, data) == (crc32c_of(data) as int / 0x8000 + crc32c_of(
            data,
        ) as int % 0x8000 * 0x2_0000 + 0xa282_ead8) % 0x1_0000_0000,
        checksum_of(ChecksumType::XxHash, data) == xxh32_of(data, 0),
        checksum_of(ChecksumType::XxHash64, data) == xxh64_of(data, 0) as int % 0x1_0000_0000,
        data.len() == 0 ==> checksum_of(ChecksumType::XxH3, data) == 0,
        data.len() > 0 ==> checksum_of(ChecksumType::XxH3, data) == ((xxh3_64_of(
            data.take(data.len() - 1),
        ) as int % 0x1_0000_0000) as u32) ^ ((data[data.len() - 1] as int * 0x6b90_83d9
            % 0x1_0000_0000) as u32),
{
    let crc = crc32c_of(data);
    assert((crc >> 15u32) | (crc << 17u32) == crc / 0x8000 + crc % 0x8000 * 0x2_0000)
        by (bit_vector);
    if data.len() > 0 {
        assert(data.drop_last() =~= data.take(data.len() - 1));
    }
}

/// Where bytes are is added to their checksum, unless the base is zero: the base
/// xor the sum of the two halves of the offset, all in 32 bits.
pub proof fn lemma_placed_checksum(checksum: u32, base: u32, offset: u64)
    ensures
        base == 0 ==> placed(checksum, base, offset) == checksum,
        base != 0 ==> placed(checksum, base, offset) == (checksum + (base ^ ((offset as int
            % 0x1_0000_0000 + offset as int / 0x1_0000_0000) % 0x1_0000_0000) as u32))
            % 0x1_0000_0000,
{
}

/// The byte by which a footer names its checksum.
pub proof fn lemma_checksum_bytes(byte: u8)
    ensures
        checksum_type_of(byte) == Some(ChecksumType::NoChecksum) <==> byte == 0,
        checksum_type_of(byte) == Some(ChecksumType::Crc32c) <==> byte == 1,
        checksum_type_of(byte) == Some(ChecksumType::XxHash) <==> byte == 2,
        checksum_type_of(byte) == Some(ChecksumType::XxHash64) <==> byte == 3,
        checksum_type_of(byte) == Some(ChecksumType::XxH3) <==> byte == 4,
        checksum_type_of(byte) is None <==> byte > 4,
        checksum_type_of(byte) matches Some(ty) ==> ty.byte() == byte,
{
}

/// Every Snappy block whose size can be allocated, whatever its length, holds
/// what the decoder makes of exactly the stored bytes.
pub proof fn lemma_snappy_blocks(data: Seq<u8>)
    requires
        usize::MAX > u32::MAX || varint64_at(data, 0) is None || (varint64_at(data, 0)->0).0
            <= 0x7fff_ffff,
    ensures
        match snappy_decompressed(data) {
            Some(bytes) => decompressed(CompressionType::Snappy, data) == Ok::<
                Seq<u8>,
                FormatError,
            >(bytes),
            None => decompressed(CompressionType::Snappy, data) == Err::<Seq<u8>, FormatError>(
                FormatError::SnappyFailed,
            ),
        },
{
}

/// How many of the bytes from `pos` on are 255 before another comes, and how much
/// they and that one add up to at most.
proof fn lemma_run_of(data: Seq<u8>, pos: int) -> (run: nat)
    requires
        0 <= pos <= data.len(),
    ensures
        pos + run <= data.len(),
        forall|j: int| pos <= j < pos + run ==> data[j] == 255,
        length_sum(data, pos) <= 255 * run + 254,
    decreases data.len() - pos,
{
    if pos < data.len() && data[pos] == 255 {
        lemma_run_of(data, pos + 1) + 1
    } else {
        0
    }
}

/// What is taken for a length that is too long holds a run of at least eight
/// million bytes of value 255.
proof fn lemma_long_length_has_run(data: Seq<u8>, pos: int) -> (at: int)
    requires
        0 <= pos <= data.len(),
        long_length_from(data, pos),
    ensures
        0 <= at <= data.len() - 0x0080_0000,
        forall|j: int| at <= j < at + 0x0080_0000 ==> data[j] == 255,
    decreases data.len() - pos,
{
    if length_too_long(data, pos + 1, data[pos] / 16) {
        let run = lemma_run_of(data, pos + 1);
        pos + 1
    } else {
        let after = literals_end(data, pos)->0;
        if length_too_long(data, after + 2, data[pos] % 16) {
            lemma_length_at_start(data, pos + 1, data[pos] / 16);
            let run = lemma_run_of(data, after + 2);
            after + 2
        } else {
            let next = (length_at(data, after + 2, data[pos] % 16)->0).1;
            lemma_long_length_has_run(data, next)
        }
    }
}

proof fn lemma_length_at_start(data: Seq<u8>, pos: int, half: u8)
    requires
        0 <= pos <= data.len(),
    ensures
        length_at(data, pos, half) matches Some((len, start)) ==> len >= 0 && start >= pos,
{
    lemma_length_end_start(data, pos);
}

proof fn lemma_length_end_start(data: Seq<u8>, pos: int)
    requires
        0 <= pos <= data.len(),
    ensures
        length_end(data, pos) matches Some(end) ==> end > pos,
        length_sum(data, pos) >= 0,
    decreases data.len() - pos,
{
    if pos < data.len() && data[pos] == 255 {
        lemma_length_end_start(data, pos + 1);
    }
}

/// Every LZ4 block starts with the size of its contents, as a varint. Where that
/// can be allocated, the block holds what the decoder makes of all bytes behind
/// the varint with that size, unless those hold a run of at least eight million
/// bytes of value 255.
pub proof fn lemma_lz4_blocks(data: Seq<u8>, size: u64, end: int)
    requires
        varint64_at(data, 0) == Some((size, end)),
        size <= isize::MAX,
    ensures
        ({
            let payload = data.skip(end);
            let found = match lz4_decompressed(payload, size as usize) {
                Some(bytes) => Ok::<Seq<u8>, FormatError>(bytes),
                None => Err::<Seq<u8>, FormatError>(FormatError::Lz4Failed),
            };
            ||| decompressed(CompressionType::Lz4, data) == found && decompressed(
                CompressionType::Lz4Hc,
                data,
            ) == found
            ||| exists|at: int|
                0 <= at <= payload.len() - 0x0080_0000 && #[trigger] payload.subrange(
                    at,
                    at + 0x0080_0000,
                ) == Seq::new(0x0080_0000, |i: int| 255u8)
        }),
{
    let payload = data.skip(end);
    if has_long_length(payload) {
        let at = lemma_long_length_has_run(payload, 0);
        assert(payload.subrange(at, at + 0x0080_0000) =~= Seq::new(0x0080_0000, |i: int| 255u8));
    }
}

/// Every Zstd block starts with the size of its contents, as a varint. Where that
/// can be allocated, the block holds what the decoder makes of all bytes behind
/// the varint in a buffer of that size.
pub proof fn lemma_zstd_blocks(data: Seq<u8>, size: u64, end: int)
    requires
        varint64_at(data, 0) == Some((size, end)),
        size <= isize::MAX,
    ensures
        match zstd_decompressed(data.skip(end), size as usize) {
            Some(bytes) => decompressed(CompressionType::Zstd, data) == Ok::<
                Seq<u8>,
                FormatError,
            >(bytes),
            None => decompressed(CompressionType::Zstd, data) == Err::<Seq<u8>, FormatError>(
                FormatError::ZstdFailed,
            ),
        },
{
}

/// LZ4 and Zstd blocks without a size, or with one that cannot be allocated, are
/// refused.
pub proof fn lemma_sizes_refused(data: Seq<u8>)
    ensures
        varint64_at(data, 0) is None ==> {
            let refused = Err::<Seq<u8>, FormatError>(FormatError::BadSizePrefix);
            &&& decompressed(CompressionType::Lz4, data) == refused
            &&& decompressed(CompressionType::Lz4Hc, data) == refused
            &&& decompressed(CompressionType::Zstd, data) == refused
        },
        varint64_at(data, 0) matches Some((size, _)) ==> size > isize::MAX ==> {
            let refused = Err::<Seq<u8>, FormatError>(FormatError::SizePrefixTooLarge { size });
            &&& decompressed(CompressionType::Lz4, data) == refused
            &&& decompressed(CompressionType::Lz4Hc, data) == refused
            &&& decompressed(CompressionType::Zstd, data) == refused
        },
{
}

/// The byte by which a trailer names the compression of its block.
pub proof fn lemma_compression_bytes(byte: u8)
    ensures
        compression_of(byte) == Ok::<CompressionType, FormatError>(
            CompressionType::NoCompression,
        ) <==> byte == 0,
        compression_of(byte) == Ok::<CompressionType, FormatError>(CompressionType::Snappy)
            <==> byte == 1,
        compression_of(byte) == Ok::<CompressionType, FormatError>(CompressionType::Zlib)
            <==> byte == 2,
        compression_of(byte) == Ok::<CompressionType, FormatError>(CompressionType::BZip2)
            <==> byte == 3,
        compression_of(byte) == Ok::<CompressionType, FormatError>(CompressionType::Lz4)
            <==> byte == 4,
        compression_of(byte) == Ok::<CompressionType, FormatError>(CompressionType::Lz4Hc)
            <==> byte == 5,
        compression_of(byte) == Ok::<CompressionType, FormatError>(CompressionType::Xpress)
            <==> byte == 6,
        compression_of(byte) == Ok::<CompressionType, FormatError>(CompressionType::Zstd)
            <==> byte == 7,
        byte > 7 ==> compression_of(byte) == Err::<CompressionType, FormatError>(
            FormatError::UnknownCompression { byte },
        ),
{
}

/// Only a block whose trailer says so is stored as it is; the compressions that
/// have no decoder here are refused.
pub proof fn lemma_other_blocks(data: Seq<u8>)
    ensures
        decompressed(CompressionType::NoCompression, data) == Ok::<Seq<u8>, FormatError>(data),
        forall|ty: CompressionType|
            ty == CompressionType::Zlib || ty == CompressionType::BZip2 || ty
                == CompressionType::Xpress ==> #[trigger] decompressed(ty, data) == Err::<
                Seq<u8>,
                FormatError,
            >(FormatError::UnsupportedCompression { compression: ty }),
{
}

/// A block is its stored bytes, a byte for their compression, and the checksum
/// of both in four bytes. It is read exactly if it is there in full and, where
/// checksums are in use, that checksum is right for its place in the file; then
/// what it holds is what its compression makes of the stored bytes.
pub proof fn lemma_block_bytes(
    stored: Seq<u8>,
    compression: u8,
    sum: u32,
    handle: BlockHandle,
    ty: ChecksumType,
    base: u32,
)
    requires
        handle.size == stored.len(),
    ensures
        ({
            let summed = stored.push(compression);
            let read = block_contents(
                summed + spec_u32_to_le_bytes(sum),
                handle,
                ty,
                base,
            );
            let right = placed(checksum_of(ty, summed), base, handle.offset);
            if ty != ChecksumType::NoChecksum && sum != right {
                read == Err::<Seq<u8>, FormatError>(
                    FormatError::BlockChecksumMismatch {
                        offset: handle.offset,
                        stored: sum,
                        computed: right,
                    },
                )
            } else {
                match compression_of(compression) {
                    Ok(how) => read == decompressed(how, stored),
                    Err(e) => read == Err::<Seq<u8>, FormatError>(e),
                }
            }
        }),
{
    lemma_auto_spec_u32_to_from_le_bytes();
    let size = handle.size as int;
    let raw = stored.push(compression) + spec_u32_to_le_bytes(sum);
    assert(raw.take(size + 1) =~= stored.push(compression));
    assert(raw.subrange(size + 1, size + 5) =~= spec_u32_to_le_bytes(sum));
    assert(raw.take(size) =~= stored);
    assert(raw[size] == compression);
}

/// Bytes of another length than a block and its trailer are not read.
pub proof fn lemma_block_length(raw: Seq<u8>, handle: BlockHandle, ty: ChecksumType, base: u32)
    requires
        raw.len() != handle.size + 5,
    ensures
        block_contents(raw, handle, ty, base) is Err,
{
}

/// A block that is written is its contents as they are, a zero byte, and the
/// checksum of both for its place in the file.
pub proof fn lemma_written_block(contents: Seq<u8>, offset: u64, ty: ChecksumType, base: u32)
    ensures
        stored_block(contents, offset, ty, base) == contents.push(0u8) + spec_u32_to_le_bytes(
            placed(checksum_of(ty, contents.push(0u8)), base, offset),
        ),
{
}

/// The byte at `i` of an encoded number holds the seven bits at that place, the
/// least significant ones first, and says whether another byte follows.
pub proof fn lemma_varint_bytes(v: nat, i: int)
    requires
        0 <= i < varint(v).len(),
    ensures
        varint(v)[i] as int % 128 == v as int / pow(128, i as nat) % 128,
        varint(v)[i] < 128 <==> i == varint(v).len() - 1,
    decreases v,
{
    reveal(pow);
    if v >= 128 && i > 0 {
        let rest = varint(v / 128);
        lemma_varint_bytes(v / 128, i - 1);
        lemma_pow_positive(128, (i - 1) as nat);
        lemma_div_denominator(v as int, 128, pow(128, (i - 1) as nat));
        assert(varint(v)[i] == rest[i - 1]);
    } else if v >= 128 {
        lemma_varint_not_empty(v / 128);
        assert(v as int / 1 == v);
    }
}

proof fn lemma_varint_not_empty(v: nat)
    ensures
        varint(v).len() > 0,
    decreases v,
{
    if v >= 128 {
        lemma_varint_not_empty(v / 128);
    }
}

/// A number takes no more bytes than it has groups of seven bits.
pub proof fn lemma_varint_length(v: nat)
    ensures
        varint(v).len() >= 1,
        v < pow(128, varint(v).len()),
        varint(v).len() > 1 ==> v >= pow(128, (varint(v).len() - 1) as nat),
    decreases v,
{
    reveal(pow);
    if v >= 128 {
        lemma_varint_length(v / 128);
        let n = varint(v / 128).len();
        assert(varint(v).len() == n + 1);
        assert(v < 128 * pow(128, n)) by (nonlinear_arith)
            requires
                v as int / 128 < pow(128, n),
        ;
        if n > 1 {
            assert(v >= 128 * pow(128, (n - 1) as nat)) by (nonlinear_arith)
                requires
                    v as int / 128 >= pow(128, (n - 1) as nat),
            ;
        } else {
            assert(pow(128, 1) == 128 * pow(128, 0));
        }
    } else {
        assert(pow(128, 1) == 128 * pow(128, 0));
    }
}

/// The number that groups spell has each group at its place.
proof fn lemma_groups_digits(buf: Seq<u8>, pos: int, n: int, limit: nat, i: int)
    requires
        0 <= pos,
        1 <= n <= limit,
        pos + n <= buf.len(),
        forall|j: int| pos <= j < pos + n - 1 ==> buf[j] >= 128,
        buf[pos + n - 1] < 128,
        0 <= i < n,
    ensures
        ({
            &&& varint_groups(buf, pos, limit) matches Some((w, end))
            &&& end == pos + n
            &&& w < pow(128, n as nat)
            &&& w as int / pow(128, i as nat) % 128 == buf[pos + i] as int % 128
        }),
    decreases n,
{
    reveal(pow);
    if n > 1 {
        let at = if i > 0 { i - 1 } else { 0 };
        lemma_groups_digits(buf, pos + 1, n - 1, (limit - 1) as nat, at);
        let high = (varint_groups(buf, pos + 1, (limit - 1) as nat)->0).0;
        let w = (buf[pos] - 128 + 128 * high) as nat;
        assert(varint_groups(buf, pos, limit) == Some((w, pos + n)));
        assert(w as int / 128 == high && w as int % 128 == buf[pos] - 128);
        if i > 0 {
            lemma_pow_positive(128, (i - 1) as nat);
            lemma_div_denominator(w as int, 128, pow(128, (i - 1) as nat));
            assert(pow(128, i as nat) == 128 * pow(128, (i - 1) as nat));
            assert(w as int / pow(128, i as nat) == high as int / pow(128, (i - 1) as nat));
            assert(buf[pos + i] == buf[pos + 1 + at]);
        } else {
            assert(pow(128, 0) == 1);
            assert(w as int / 1 == w);
        }
        assert(pow(128, n as nat) == 128 * pow(128, (n - 1) as nat));
        assert(w < 128 * pow(128, (n - 1) as nat));
    } else {
        assert(pow(128, 1) == 128 * pow(128, 0));
        assert(pow(128, 0) == 1);
        let w = buf[pos] as nat;
        assert(varint_groups(buf, pos, limit) == Some((w, pos + n)));
        assert(w as int / 1 == w);
    }
}

proof fn lemma_powers()
    ensures
        pow(128, 0) == 1,
        pow(128, 1) == 0x80,
        pow(128, 2) == 0x4000,
        pow(128, 3) == 0x20_0000,
        pow(128, 4) == 0x1000_0000,
        pow(128, 5) == 0x8_0000_0000,
        pow(128, 6) == 0x400_0000_0000,
        pow(128, 7) == 0x2_0000_0000_0000,
        pow(128, 8) == 0x100_0000_0000_0000,
        pow(128, 9) == 0x8000_0000_0000_0000,
        pow(128, 10) == 0x40_0000_0000_0000_0000,
{
    reveal_with_fuel(pow, 11);
}

/// Any bytes that say that they are continued, up to ten with the one that does
/// not, are read as the number with their lower seven bits each at its place;
/// of the tenth only one bit has room.
pub proof fn lemma_varint_read(buf: Seq<u8>, pos: int, n: int, i: int)
    requires
        0 <= pos,
        1 <= n <= 10,
        pos + n <= buf.len(),
        forall|j: int| pos <= j < pos + n - 1 ==> buf[j] >= 128,
        buf[pos + n - 1] < 128,
        0 <= i < n,
    ensures
        ({
            &&& varint64_at(buf, pos) matches Some((v, end))
            &&& end == pos + n
            &&& i < 9 ==> v as int / pow(128, i as nat) % 128 == buf[pos + i] as int % 128
            &&& i == 9 ==> v as int / 0x8000_0000_0000_0000 == buf[pos + i] as int % 2
            &&& n < 10 ==> v < pow(128, n as nat)
        }),
{
    lemma_groups_digits(buf, pos, n, 10, i);
    lemma_powers();
    let w = (varint_groups(buf, pos, 10)->0).0 as int;
    let v = w % 0x1_0000_0000_0000_0000;
    if n < 10 {
        assert(pow(128, n as nat) <= 0x8000_0000_0000_0000) by {
            lemma_pow_increases(128, n as nat, 9);
        }
        assert(v == w);
    } else if i < 9 {
        lemma_upper_bits_dropped(w, i as nat);
    } else {
        lemma_last_group(w);
    }
}

/// The tenth group is cut to one bit.
proof fn lemma_last_group(w: int)
    requires
        0 <= w < pow(128, 10),
    ensures
        w % 0x1_0000_0000_0000_0000 / 0x8000_0000_0000_0000 == w / pow(128, 9) % 128 % 2,
{
    lemma_powers();
    let q = w / 0x8000_0000_0000_0000;
    assert(0 <= q < 128);
    assert(w % 0x1_0000_0000_0000_0000 / 0x8000_0000_0000_0000 == q % 2);
}

/// Dropping all but 64 bits changes none of the nine lower groups of seven.
proof fn lemma_upper_bits_dropped(w: int, i: nat)
    requires
        w >= 0,
        i < 9,
    ensures
        w % 0x1_0000_0000_0000_0000 / pow(128, i) % 128 == w / pow(128, i) % 128,
{
    lemma_powers();
    let c = pow(128, i);
    let d = pow(128, (8 - i) as nat);
    lemma_pow_adds(128, i, (8 - i) as nat);
    lemma_pow_positive(128, i);
    let v = w % 0x1_0000_0000_0000_0000;
    let q = w / 0x1_0000_0000_0000_0000;
    assert(w == v + 0x1_0000_0000_0000_0000 * q);
    assert(0x1_0000_0000_0000_0000 * q == (128 * (2 * d * q)) * c) by (nonlinear_arith)
        requires
            c * d == 0x100_0000_0000_0000,
    ;
    lemma_hoist_over_denominator(v, 128 * (2 * d * q), c as nat);
    lemma_mod_multiples_vanish(2 * d * q, v / c, 128);
}

proof fn lemma_groups_refused(buf: Seq<u8>, pos: int, limit: nat)
    requires
        forall|j: int| pos <= j < pos + limit && 0 <= j < buf.len() ==> buf[j] >= 128,
    ensures
        varint_groups(buf, pos, limit) is None,
    decreases limit,
{
    if limit > 0 && 0 <= pos < buf.len() {
        lemma_groups_refused(buf, pos + 1, (limit - 1) as nat);
    }
}

/// Nothing is read where the bytes end, or ten have passed, before one says that
/// it is the last.
pub proof fn lemma_varint_refused(buf: Seq<u8>, pos: int)
    requires
        forall|j: int| pos <= j < pos + 10 && 0 <= j < buf.len() ==> buf[j] >= 128,
    ensures
        varint64_at(buf, pos) is None,
        varint32_at(buf, pos) is None,
{
    lemma_groups_refused(buf, pos, 10);
}

/// Numbers of 32 bits are read like those of 64, and larger ones refused.
pub proof fn lemma_varint32_read(buf: Seq<u8>, pos: int)
    ensures
        match varint64_at(buf, pos) {
            None => varint32_at(buf, pos) is None,
            Some((v, end)) => if v < 0x1_0000_0000 {
                varint32_at(buf, pos) == Some((v as u32, end))
            } else {
                varint32_at(buf, pos) is None
            },
        },
{
}

/// The footer of a file before format version 6: the byte of the checksum, the
/// offset and the size of the metaindex block and of the index block as varints,
/// anything up to forty bytes, the version and the magic number. Both handles
/// are read as they were written, whatever they are.
#[verifier::rlimit(50)]
pub proof fn lemma_old_footer_round_trip(
    checksum_byte: u8,
    metaindex: BlockHandle,
    index: BlockHandle,
    padding: Seq<u8>,
    format_version: u32,
    file_size: u64,
)
    requires
        checksum_byte <= 4,
        2 <= format_version <= 5,
        file_size >= 53,
        varint(metaindex.offset as nat).len() + varint(metaindex.size as nat).len() + varint(
            index.offset as nat,
        ).len() + varint(index.size as nat).len() + padding.len() == 40,
    ensures
        ({
            let handles = varint(metaindex.offset as nat) + varint(metaindex.size as nat) + varint(
                index.offset as nat,
            ) + varint(index.size as nat);
            let tail = seq![checksum_byte] + (handles + padding) + spec_u32_to_le_bytes(
                format_version,
            ) + spec_u64_to_le_bytes(0x88e2_41b7_85f4_cff7);
            &&& footer_at(tail, file_size) matches Ok(footer)
            &&& footer.metaindex_handle == metaindex
            &&& footer.index_handle == Some(index)
            &&& footer.format_version == format_version
            &&& checksum_type_of(checksum_byte) == Some(footer.checksum_type)
            &&& footer.table_magic_number == 0x88e2_41b7_85f4_cff7
            &&& footer.block_trailer_size == 5
            &&& footer.base_context_checksum == 0
        }),
{
    lemma_auto_spec_u32_to_from_le_bytes();
    lemma_auto_spec_u64_to_from_le_bytes();
    let a = varint(metaindex.offset as nat);
    let b = varint(metaindex.size as nat);
    let c = varint(index.offset as nat);
    let d = varint(index.size as nat);
    let part = a + b + c + d + padding;
    let tail = seq![checksum_byte] + part + spec_u32_to_le_bytes(format_version)
        + spec_u64_to_le_bytes(0x88e2_41b7_85f4_cff7);
    assert(tail.len() == 53);
    assert(tail.subrange(45, 53) =~= spec_u64_to_le_bytes(0x88e2_41b7_85f4_cff7));
    assert(tail.subrange(41, 45) =~= spec_u32_to_le_bytes(format_version));
    assert(tail.subrange(1, 41) =~= part);
    let n1 = a.len() as int;
    let n2 = n1 + b.len();
    let n3 = n2 + c.len();
    let n4 = n3 + d.len();
    assert(part.subrange(0, n1) =~= a);
    assert(part.subrange(n1, n2) =~= b);
    assert(part.subrange(n2, n3) =~= c);
    assert(part.subrange(n3, n4) =~= d);
    lemma_varint64_round_trip(part, 0, metaindex.offset);
    lemma_varint64_round_trip(part, n1, metaindex.size);
    lemma_varint64_round_trip(part, n2, index.offset);
    lemma_varint64_round_trip(part, n3, index.size);
}

/// A footer is read only if it has the magic number, a version from 2 to 7 and a
/// checksum byte up to 4, and the file is as long as a footer.
pub proof fn lemma_footer_refused(tail: Seq<u8>, file_size: u64)
    ensures
        footer_at(tail, file_size) matches Ok(footer) ==> {
            let n = tail.len() as int;
            &&& n >= 53
            &&& file_size >= 53
            &&& spec_u64_from_le_bytes(tail.subrange(n - 8, n)) == 0x88e2_41b7_85f4_cff7
            &&& footer.format_version == spec_u32_from_le_bytes(tail.subrange(n - 12, n - 8))
            &&& 2 <= footer.format_version <= 7
            &&& tail[0] <= 4
            &&& checksum_type_of(tail[0]) == Some(footer.checksum_type)
        },
{
}

/// A footer from format version 6 on: the byte of the checksum, four bytes that
/// mark such footers, the checksum of the footer while its own field is zero,
/// the base for checksums by place, the size of the metaindex block, sixteen
/// bytes that are not looked at and eight that are zero, the version and the
/// magic number. It is read exactly if the checksum is right for its place, or
/// none is in use, and the metaindex block that ends in front of it with its
/// trailer starts inside the file.
#[verifier::rlimit(50)]
pub proof fn lemma_new_footer(
    checksum_byte: u8,
    sum: u32,
    base: u32,
    metaindex_size: u32,
    skipped: Seq<u8>,
    format_version: u32,
    file_size: u64,
)
    requires
        checksum_byte <= 4,
        6 <= format_version <= 7,
        file_size >= 53,
        skipped.len() == 16,
    ensures
        ({
            let front = seq![checksum_byte] + spec_u32_to_le_bytes(0x007a_003e);
            let back = spec_u32_to_le_bytes(base) + spec_u32_to_le_bytes(metaindex_size) + skipped
                + spec_u64_to_le_bytes(0) + spec_u32_to_le_bytes(format_version)
                + spec_u64_to_le_bytes(0x88e2_41b7_85f4_cff7);
            let tail = front + spec_u32_to_le_bytes(sum) + back;
            let blank = front + spec_u32_to_le_bytes(0) + back;
            let ty = checksum_type_of(checksum_byte)->0;
            let right = placed(checksum_of(ty, blank), base, (file_size - 53) as u64);
            if (checksum_byte != 0 && sum != right) || file_size - 58 < metaindex_size {
                footer_at(tail, file_size) is Err
            } else {
                footer_at(tail, file_size) == Ok::<Footer, FormatError>(
                    Footer {
                        table_magic_number: 0x88e2_41b7_85f4_cff7,
                        format_version,
                        checksum_type: ty,
                        metaindex_handle: BlockHandle {
                            offset: (file_size - 58 - metaindex_size) as u64,
                            size: metaindex_size as u64,
                        },
                        index_handle: None,
                        block_trailer_size: 5,
                        base_context_checksum: base,
                    },
                )
            }
        }),
{
    lemma_auto_spec_u32_to_from_le_bytes();
    lemma_auto_spec_u64_to_from_le_bytes();
    let front = seq![checksum_byte] + spec_u32_to_le_bytes(0x007a_003e);
    let back = spec_u32_to_le_bytes(base) + spec_u32_to_le_bytes(metaindex_size) + skipped
        + spec_u64_to_le_bytes(0) + spec_u32_to_le_bytes(format_version) + spec_u64_to_le_bytes(
        0x88e2_41b7_85f4_cff7,
    );
    let tail = front + spec_u32_to_le_bytes(sum) + back;
    assert(tail.len() == 53);
    assert(tail.subrange(45, 53) =~= spec_u64_to_le_bytes(0x88e2_41b7_85f4_cff7));
    assert(tail.subrange(41, 45) =~= spec_u32_to_le_bytes(format_version));
    assert(tail.subrange(33, 41) =~= spec_u64_to_le_bytes(0));
    assert(tail.subrange(1, 5) =~= spec_u32_to_le_bytes(0x007a_003e));
    assert(tail.subrange(5, 9) =~= spec_u32_to_le_bytes(sum));
    assert(tail.subrange(9, 13) =~= spec_u32_to_le_bytes(base));
    assert(tail.subrange(13, 17) =~= spec_u32_to_le_bytes(metaindex_size));
    assert(tail.take(5) =~= front);
    assert(tail.skip(9) =~= back);
}

/// The footer that is written has the same layout, with zeros where nothing is
/// looked at, and the checksum for its place.
pub proof fn lemma_written_footer(
    format_version: u32,
    ty: ChecksumType,
    metaindex_size: u32,
    base: u32,
    offset: u64,
)
    ensures
        ({
            let front = seq![ty.byte()] + spec_u32_to_le_bytes(0x007a_003e);
            let back = spec_u32_to_le_bytes(base) + spec_u32_to_le_bytes(metaindex_size)
                + Seq::new(24, |i: int| 0u8) + spec_u32_to_le_bytes(format_version)
                + spec_u64_to_le_bytes(0x88e2_41b7_85f4_cff7);
            let blank = front + spec_u32_to_le_bytes(0) + back;
            footer_bytes(format_version, ty, metaindex_size, base, offset) == front
                + spec_u32_to_le_bytes(placed(checksum_of(ty, blank), base, offset)) + back
        }),
{
    lemma_auto_spec_u32_to_from_le_bytes();
    let front = seq![ty.byte()] + spec_u32_to_le_bytes(0x007a_003e);
    let back = spec_u32_to_le_bytes(base) + spec_u32_to_le_bytes(metaindex_size) + Seq::new(
        24,
        |i: int| 0u8,
    ) + spec_u32_to_le_bytes(format_version) + spec_u64_to_le_bytes(0x88e2_41b7_85f4_cff7);
    let blank = front + spec_u32_to_le_bytes(0) + back;
    let sum = placed(checksum_of(ty, blank), base, offset);
    assert(blank =~= footer_stating(0, format_version, ty, metaindex_size, base));
    assert(footer_bytes(format_version, ty, metaindex_size, base, offset) =~= front
        + spec_u32_to_le_bytes(sum) + back);
}

/// The contents of a block: entries, then numbers of four bytes, then how many
/// of them there are in four bytes.
pub proof fn lemma_parsed_block(contents: Seq<u8>, count: u32, i: int)
    requires
        contents.len() >= 4,
        contents.subrange(contents.len() - 4, contents.len() as int) == spec_u32_to_le_bytes(count),
    ensures
        contents.len() < 4 + 4 * count ==> parsed(contents) is Err,
        contents.len() >= 4 + 4 * count ==> ({
            let n = contents.len() - 4 - 4 * count;
            &&& parsed(contents) matches Ok((entry_bytes, restarts))
            &&& entry_bytes == contents.take(n)
            &&& restarts.len() == count
            &&& 0 <= i < count ==> spec_u32_to_le_bytes(restarts[i]) == contents.subrange(
                n + 4 * i,
                n + 4 * i + 4,
            )
        }),
{
    lemma_auto_spec_u32_to_from_le_bytes();
    assert(spec_u32_to_le_bytes(count).len() == 4);
    assert(restart_count(contents) == count);
    let n = contents.len() - 4 - 4 * count;
    if n >= 0 && 0 <= i < count {
        let four = contents.subrange(n + 4 * i, n + 4 * i + 4);
        assert(spec_u32_to_le_bytes(spec_u32_from_le_bytes(four)) == four);
    }
}

/// An entry of a data block: how many bytes of the key before it are kept, how
/// many are added and how long the value is, as varints, then the added bytes
/// and the value. It is read wherever it is and however much is kept, and what
/// follows is read with its key.
#[verifier::rlimit(50)]
pub proof fn lemma_entry_layout(
    data: Seq<u8>,
    pos: int,
    last: Seq<u8>,
    kept: u32,
    added: Seq<u8>,
    value: Seq<u8>,
)
    requires
        kept <= last.len(),
        added.len() <= u32::MAX,
        value.len() <= u32::MAX,
        0 <= pos,
        ({
            let piece = varint(kept as nat) + varint(added.len()) + varint(value.len()) + added
                + value;
            pos + piece.len() <= data.len() && data.subrange(pos, pos + piece.len()) == piece
        }),
    ensures
        ({
            let end = pos + varint(kept as nat).len() + varint(added.len()).len() + varint(
                value.len(),
            ).len() + added.len() + value.len();
            let key = last.take(kept as int) + added;
            let rest = entries_from(data, end, key);
            &&& entry_at(data, pos, last) == Ok::<(Seq<u8>, Seq<u8>, int), FormatError>(
                (key, value, end),
            )
            &&& entries_from(data, pos, last).0 == seq![(key, value)] + rest.0
            &&& entries_from(data, pos, last).1 == rest.1
        }),
{
    let a = varint(kept as nat);
    let b = varint(added.len());
    let c = varint(value.len());
    let piece = a + b + c + added + value;
    let whole = data.subrange(pos, pos + piece.len());
    let n1 = a.len() as int;
    let n2 = n1 + b.len();
    let n3 = n2 + c.len();
    let n4 = n3 + added.len();
    lemma_varint_not_empty(kept as nat);
    assert forall|i: int, j: int| 0 <= i <= j <= piece.len() implies #[trigger] data.subrange(
        pos + i,
        pos + j,
    ) == piece.subrange(i, j) by {
        assert(data.subrange(pos + i, pos + j) =~= whole.subrange(i, j));
    }
    assert(piece.subrange(0, n1) =~= a);
    assert(piece.subrange(n1, n2) =~= b);
    assert(piece.subrange(n2, n3) =~= c);
    assert(piece.subrange(n3, n4) =~= added);
    assert(piece.subrange(n4, n4 + value.len()) =~= value);
    assert(data.subrange(pos + 0, pos + n1) == a);
    lemma_varint32_round_trip(data, pos, kept);
    assert(data.subrange(pos + n1, pos + n2) == b);
    lemma_varint32_round_trip(data, pos + n1, added.len() as u32);
    assert(data.subrange(pos + n2, pos + n3) == c);
    lemma_varint32_round_trip(data, pos + n2, value.len() as u32);
    assert(data.subrange(pos + n3, pos + n4) == added);
    assert(data.subrange(pos + n4, pos + (n4 + value.len())) == value);
}

/// Reading starts at the front without a key, and ends at the end.
pub proof fn lemma_entries_ends(data: Seq<u8>, last: Seq<u8>)
    ensures
        block_entries(data) == entries_from(data, 0, Seq::empty()),
        entries_from(data, data.len() as int, last).0.len() == 0,
        entries_from(data, data.len() as int, last).1 is None,
{
}

/// An entry of an index block with its handle in full: how many bytes of the
/// key before it are kept and how many are added, as varints, the added bytes,
/// then the offset and the size as varints. So is every entry that keeps
/// nothing, and every one at a restart point.
#[verifier::rlimit(50)]
pub proof fn lemma_full_index_entry(
    data: Seq<u8>,
    restarts: Seq<u32>,
    pos: int,
    last: Seq<u8>,
    prev: Option<BlockHandle>,
    kept: u32,
    added: Seq<u8>,
    handle: BlockHandle,
)
    requires
        kept <= last.len(),
        added.len() <= u32::MAX,
        0 <= pos,
        kept == 0 || exists|i: int| 0 <= i < restarts.len() && #[trigger] restarts[i] == pos,
        ({
            let piece = varint(kept as nat) + varint(added.len()) + added + varint(
                handle.offset as nat,
            ) + varint(handle.size as nat);
            pos + piece.len() <= data.len() && data.subrange(pos, pos + piece.len()) == piece
        }),
    ensures
        ({
            let end = pos + varint(kept as nat).len() + varint(added.len()).len() + added.len()
                + varint(handle.offset as nat).len() + varint(handle.size as nat).len();
            let key = last.take(kept as int) + added;
            let rest = index_entries_from(data, restarts, end, key, Some(handle));
            &&& index_entry_at(data, restarts, pos, last, prev) == Ok::<
                (Seq<u8>, BlockHandle, int),
                FormatError,
            >((key, handle, end))
            &&& index_entries_from(data, restarts, pos, last, prev).0 == seq![(key, handle)]
                + rest.0
            &&& index_entries_from(data, restarts, pos, last, prev).1 == rest.1
        }),
{
    let a = varint(kept as nat);
    let b = varint(added.len());
    let c = varint(handle.offset as nat);
    let d = varint(handle.size as nat);
    let piece = a + b + added + c + d;
    let whole = data.subrange(pos, pos + piece.len());
    let n1 = a.len() as int;
    let n2 = n1 + b.len();
    let n3 = n2 + added.len();
    let n4 = n3 + c.len();
    lemma_varint_not_empty(kept as nat);
    assert forall|i: int, j: int| 0 <= i <= j <= piece.len() implies #[trigger] data.subrange(
        pos + i,
        pos + j,
    ) == piece.subrange(i, j) by {
        assert(data.subrange(pos + i, pos + j) =~= whole.subrange(i, j));
    }
    assert(piece.subrange(0, n1) =~= a);
    assert(piece.subrange(n1, n2) =~= b);
    assert(piece.subrange(n2, n3) =~= added);
    assert(piece.subrange(n3, n4) =~= c);
    assert(piece.subrange(n4, n4 + d.len()) =~= d);
    assert(data.subrange(pos + 0, pos + n1) == a);
    lemma_varint32_round_trip(data, pos, kept);
    assert(data.subrange(pos + n1, pos + n2) == b);
    lemma_varint32_round_trip(data, pos + n1, added.len() as u32);
    assert(data.subrange(pos + n2, pos + n3) == added);
    assert(data.subrange(pos + n3, pos + n4) == c);
    lemma_varint64_round_trip(data, pos + n3, handle.offset);
    assert(data.subrange(pos + n4, pos + (n4 + d.len())) == d);
    lemma_varint64_round_trip(data, pos + n4, handle.size);
}

/// Any other entry of an index block: instead of the handle, by how much its size
/// differs from that of the block before, as a varint: twice the difference, or
/// one less than twice as much where the block is smaller. The block starts
/// behind the one before and its trailer.
#[verifier::rlimit(50)]
pub proof fn lemma_short_index_entry(
    data: Seq<u8>,
    restarts: Seq<u32>,
    pos: int,
    last: Seq<u8>,
    prev: BlockHandle,
    kept: u32,
    added: Seq<u8>,
    size: u64,
)
    requires
        0 < kept <= last.len(),
        added.len() <= u32::MAX,
        0 <= pos,
        forall|i: int| 0 <= i < restarts.len() ==> #[trigger] restarts[i] != pos,
        prev.size <= i64::MAX,
        size <= i64::MAX,
        prev.offset + prev.size + 5 <= u64::MAX,
        ({
            let delta = if size >= prev.size {
                2 * (size - prev.size)
            } else {
                2 * (prev.size - size) - 1
            };
            let piece = varint(kept as nat) + varint(added.len()) + added + varint(delta as nat);
            pos + piece.len() <= data.len() && data.subrange(pos, pos + piece.len()) == piece
        }),
    ensures
        ({
            let delta = if size >= prev.size {
                2 * (size - prev.size)
            } else {
                2 * (prev.size - size) - 1
            };
            let end = pos + varint(kept as nat).len() + varint(added.len()).len() + added.len()
                + varint(delta as nat).len();
            let key = last.take(kept as int) + added;
            let handle = BlockHandle { offset: (prev.offset + prev.size + 5) as u64, size };
            let rest = index_entries_from(data, restarts, end, key, Some(handle));
            &&& index_entry_at(data, restarts, pos, last, Some(prev)) == Ok::<
                (Seq<u8>, BlockHandle, int),
                FormatError,
            >((key, handle, end))
            &&& index_entries_from(data, restarts, pos, last, Some(prev)).0 == seq![(key, handle)]
                + rest.0
            &&& index_entries_from(data, restarts, pos, last, Some(prev)).1 == rest.1
        }),
{
    let delta = if size >= prev.size {
        2 * (size - prev.size)
    } else {
        2 * (prev.size - size) - 1
    };
    let a = varint(kept as nat);
    let b = varint(added.len());
    let c = varint(delta as nat);
    let piece = a + b + added + c;
    let whole = data.subrange(pos, pos + piece.len());
    let n1 = a.len() as int;
    let n2 = n1 + b.len();
    let n3 = n2 + added.len();
    lemma_varint_not_empty(kept as nat);
    assert forall|i: int, j: int| 0 <= i <= j <= piece.len() implies #[trigger] data.subrange(
        pos + i,
        pos + j,
    ) == piece.subrange(i, j) by {
        assert(data.subrange(pos + i, pos + j) =~= whole.subrange(i, j));
    }
    assert(piece.subrange(0, n1) =~= a);
    assert(piece.subrange(n1, n2) =~= b);
    assert(piece.subrange(n2, n3) =~= added);
    assert(piece.subrange(n3, n3 + c.len()) =~= c);
    assert(data.subrange(pos + 0, pos + n1) == a);
    lemma_varint32_round_trip(data, pos, kept);
    assert(data.subrange(pos + n1, pos + n2) == b);
    lemma_varint32_round_trip(data, pos + n1, added.len() as u32);
    assert(data.subrange(pos + n2, pos + n3) == added);
    assert(data.subrange(pos + n3, pos + (n3 + c.len())) == c);
    lemma_varint64_round_trip(data, pos + n3, delta as u64);
}

/// The sizes and numbers of the format.
pub proof fn lemma_constants()
    ensures
        NUM_INTERNAL_BYTES == 8,
        BLOCK_TRAILER_SIZE == 5,
        FOOTER_TAIL_LEN == 53,
        MAX_FOOTER_ENCODED_LEN == 53,
        MAGIC_NUMBER_LEN == 8,
        BLOCK_HANDLES_LEN == 40,
        BLOCK_BASED_TABLE_MAGIC == 0x88e2_41b7_85f4_cff7,
        EXTENDED_MAGIC == 0x007a_003e,
        DEFAULT_RESTART_INTERVAL == 16,
        DATA_BLOCK_RESTART_INTERVAL == 16,
        INDEX_BLOCK_RESTART_INTERVAL == 1,
        TARGET_BLOCK_SIZE == 4096,
        FORMAT_VERSION == 7,
        EXTERNAL_SST_VERSION == 2,
        INDEX_TYPE_BINARY_SEARCH == 0,
{
}

/// What a decoded key, options and properties show is what they hold.
pub proof fn lemma_views(ik: InternalKey, opts: SstBuilderOptions, props: PropertiesInput)
    ensures
        ik@.user_key == ik.user_key@,
        ik@.sequence == ik.sequence,
        ik@.value_type == ik.value_type,
        opts@.checksum_type == opts.checksum_type,
        opts@.comparator_name == opts.comparator_name@,
        opts@.column_family_id == opts.column_family_id,
        opts@.column_family_name == opts.column_family_name@,
        opts@.base_context_checksum == opts.base_context_checksum,
        opts@.external_sst_global_seqno == opts.external_sst_global_seqno,
        props@.num_entries == props.num_entries,
        props@.raw_key_size == props.raw_key_size,
        props@.raw_value_size == props.raw_value_size,
        props@.data_size == props.data_size,
        props@.index_size == props.index_size,
        props@.comparator_name == props.comparator_name@,
        props@.column_family_id == props.column_family_id,
        props@.column_family_name == props.column_family_name@,
        props@.external_sst_global_seqno == props.external_sst_global_seqno,
{
}

/// The type that a byte stands for.
pub proof fn lemma_value_types(byte: u8)
    ensures
        value_type_of(byte) == ValueType::Deletion <==> byte == 0x00,
        value_type_of(byte) == ValueType::Value <==> byte == 0x01,
        value_type_of(byte) == ValueType::Merge <==> byte == 0x02,
        value_type_of(byte) == ValueType::SingleDeletion <==> byte == 0x07,
        value_type_of(byte) == ValueType::RangeDeletion <==> byte == 0x0f,
        value_type_of(byte) == ValueType::BlobIndex <==> byte == 0x11,
        value_type_of(byte) matches ValueType::Other(other) ==> other == byte,
        value_type_of(byte).is_tombstone() <==> byte == 0x00 || byte == 0x07,
{
}

/// The steps of the checksums, by themselves.
pub proof fn lemma_checksum_steps(x: u32, byte: u8, hash: u64, base: u32, offset: u64)
    ensures
        masked_crc(x) == (x as int / 0x8000 + x as int % 0x8000 * 0x2_0000 + 0xa282_ead8)
            % 0x1_0000_0000,
        fold_last_byte(x, byte) == x ^ ((byte as int * 0x6b90_83d9 % 0x1_0000_0000) as u32),
        low_half(hash) == hash as int % 0x1_0000_0000,
        base == 0 ==> context_modifier(base, offset) == 0,
        base != 0 ==> context_modifier(base, offset) == base ^ (((offset as int % 0x1_0000_0000
            + offset as int / 0x1_0000_0000) % 0x1_0000_0000) as u32),
{
    assert((x >> 15u32) | (x << 17u32) == x / 0x8000 + x % 0x8000 * 0x2_0000) by (bit_vector);
}

/// The trailer of a block, where the checksum of what it guards is given.
pub proof fn lemma_trailer(
    stored: Seq<u8>,
    compression: u8,
    sum: u32,
    handle: BlockHandle,
    ty: ChecksumType,
    base: u32,
    computed: u32,
)
    requires
        handle.size == stored.len(),
    ensures
        ({
            let raw = stored.push(compression) + spec_u32_to_le_bytes(sum);
            let right = placed(computed, base, handle.offset);
            checked_compression(raw, handle, ty, base, computed) == if ty
                != ChecksumType::NoChecksum && sum != right {
                Err::<CompressionType, FormatError>(
                    FormatError::BlockChecksumMismatch {
                        offset: handle.offset,
                        stored: sum,
                        computed: right,
                    },
                )
            } else {
                compression_of(compression)
            }
        }),
        forall|ty: CompressionType| compression_of(compression) == Ok::<
            CompressionType,
            FormatError,
        >(ty) ==> #[trigger] ty.byte() == compression,
{
    lemma_auto_spec_u32_to_from_le_bytes();
    let size = handle.size as int;
    let raw = stored.push(compression) + spec_u32_to_le_bytes(sum);
    assert(raw.subrange(size + 1, size + 5) =~= spec_u32_to_le_bytes(sum));
    assert(raw[size] == compression);
}

/// A handle is two varints: the offset, then the size.
pub proof fn lemma_handle_read(buf: Seq<u8>, pos: int)
    ensures
        match varint64_at(buf, pos) {
            None => handle_at(buf, pos) is None,
            Some((offset, mid)) => match varint64_at(buf, mid) {
                None => handle_at(buf, pos) is None,
                Some((size, end)) => handle_at(buf, pos) == Some(
                    (BlockHandle { offset, size }, end),
                ),
            },
        },
{
}

/// A footer from format version 6 on is read only with the bytes that mark it,
/// with zeros in the last eight reserved bytes, and with the right checksum for
/// its place, where checksums are in use.
pub proof fn lemma_new_footer_refused(tail: Seq<u8>, file_size: u64)
    ensures
        footer_at(tail, file_size) matches Ok(footer) ==> footer.format_version >= 6 ==> {
            let sum = checksum_of(
                footer.checksum_type,
                tail.take(5) + spec_u32_to_le_bytes(0) + tail.skip(9),
            );
            &&& spec_u32_from_le_bytes(tail.subrange(1, 5)) == 0x007a_003e
            &&& spec_u64_from_le_bytes(tail.subrange(33, 41)) == 0
            &&& footer.checksum_type != ChecksumType::NoChecksum ==> spec_u32_from_le_bytes(
                tail.subrange(5, 9),
            ) == placed(sum, footer.base_context_checksum, (file_size - 53) as u64)
            &&& footer.base_context_checksum == spec_u32_from_le_bytes(tail.subrange(9, 13))
            &&& footer.metaindex_handle.size == spec_u32_from_le_bytes(tail.subrange(13, 17))
            &&& footer.metaindex_handle.offset + footer.metaindex_handle.size + 58 == file_size
            &&& footer.index_handle is None
            &&& checked_footer(
                tail,
                file_size - 53,
                footer.format_version,
                footer.checksum_type,
                sum,
            ) == Ok::<Footer, FormatError>(footer)
        },
{
}

/// An entry is read only if it is there in full and keeps no more than the key
/// before it has; where one is not, reading ends with what is wrong.
pub proof fn lemma_entry_refused(data: Seq<u8>, pos: int, last: Seq<u8>)
    ensures
        entry_at(data, pos, last) matches Ok((key, value, end)) ==> {
            &&& varint32_at(data, pos) matches Some((kept, p1))
            &&& varint32_at(data, p1) matches Some((added, p2))
            &&& varint32_at(data, p2) matches Some((len, p3))
            &&& kept <= last.len()
            &&& end == p3 + added + len
            &&& end <= data.len()
            &&& key == last.take(kept as int) + data.subrange(p3, p3 + added)
            &&& value == data.subrange(p3 + added, end)
        },
        entry_at(data, pos, last) matches Err(e) ==> pos < data.len() ==> entries_from(
            data,
            pos,
            last,
        ).0.len() == 0 && entries_from(data, pos, last).1 == Some(e),
        entry_at(data, pos, last) matches Err(e) ==> pos < data.len() ==> key_left_from(
            data,
            pos,
            last,
        ) == match entry_key_at(data, pos, last) {
            Some(key) => key,
            None => last,
        },
        entry_at(data, pos, last) matches Ok((key, _, _)) ==> entry_key_at(data, pos, last)
            == Some(key),
        entry_key_at(data, pos, last) matches Some(key) ==> ({
            &&& varint32_at(data, pos) matches Some((kept, p1))
            &&& varint32_at(data, p1) matches Some((added, p2))
            &&& varint32_at(data, p2) matches Some((_, p3))
            &&& kept <= last.len()
            &&& p3 + added <= data.len()
            &&& key == last.take(kept as int) + data.subrange(p3, p3 + added)
        }),
{
}

/// The same for an entry of an index block.
pub proof fn lemma_index_entry_refused(
    data: Seq<u8>,
    restarts: Seq<u32>,
    pos: int,
    last: Seq<u8>,
    prev: Option<BlockHandle>,
)
    ensures
        index_entry_at(data, restarts, pos, last, prev) matches Ok((key, handle, end)) ==> {
            &&& varint32_at(data, pos) matches Some((kept, p1))
            &&& varint32_at(data, p1) matches Some((added, p2))
            &&& kept <= last.len()
            &&& p2 + added <= data.len()
            &&& key == last.take(kept as int) + data.subrange(p2, p2 + added)
            &&& kept == 0 ==> handle_at(data, p2 + added) == Some((handle, end))
            &&& kept != 0 && prev is None ==> handle_at(data, p2 + added) == Some((handle, end))
            &&& index_key_at(data, pos, last) == Some(key)
        },
        index_entry_at(data, restarts, pos, last, prev) matches Err(e) ==> pos < data.len() ==> {
            &&& index_entries_from(data, restarts, pos, last, prev).0.len() == 0
            &&& index_entries_from(data, restarts, pos, last, prev).1 == Some(e)
            &&& index_key_left_from(data, restarts, pos, last, prev) == match index_key_at(
                data,
                pos,
                last,
            ) {
                Some(key) => key,
                None => last,
            }
        },
        index_block_entries(data, restarts) == index_entries_from(
            data,
            restarts,
            0,
            Seq::empty(),
            None,
        ),
        index_entries_from(data, restarts, data.len() as int, last, prev).0.len() == 0,
        index_entries_from(data, restarts, data.len() as int, last, prev).1 is None,
{
}

/// Entries whose keys and values have lengths of 32 bits can be written.
pub proof fn lemma_lengths_fit(entries: Seq<Entry>)
    ensures
        lengths_fit(entries) <==> forall|i: int|
            0 <= i < entries.len() ==> (#[trigger] entries[i]).0.len() <= 0xffff_ffff
                && entries[i].1.len() <= 0xffff_ffff,
{
    if lengths_fit(entries) {
        assert forall|i: int| 0 <= i < entries.len() implies (#[trigger] entries[i]).0.len()
            <= 0xffff_ffff && entries[i].1.len() <= 0xffff_ffff by {
            assert(entries[i].0.len() <= u32::MAX);
        }
    }
}

/// An index block with a restart point at every entry holds any handles.
pub proof fn lemma_index_entries_fit(entries: Seq<IndexEntry>)
    requires
        forall|i: int| 0 <= i < entries.len() ==> (#[trigger] entries[i]).0.len() <= 0xffff_ffff,
    ensures
        index_entries_fit(1, entries),
{
}

/// A key that is written without its sequence number: its last seven bytes are
/// zero, and the rest is as it was.
pub proof fn lemma_without_seqno(key: Seq<u8>)
    requires
        key.len() >= 8,
    ensures
        without_seqno(key) == key.take(key.len() - 7) + Seq::new(7, |j: int| 0u8),
{
    let n = key.len() - 8;
    lemma_key_bytes(key);
    lemma_packed_bytes(key);
    lemma_small_number_bytes(key[n]);
    assert(without_seqno(key) =~= key.take(key.len() - 7) + Seq::new(7, |j: int| 0u8));
}

/// A metaindex block: the names in ascending order, each with the offset and the
/// size of its block as varints, and a restart point at every entry.
pub proof fn lemma_metaindex(handles: Seq<(&str, BlockHandle)>, i: int)
    requires
        0 <= i < handles.len(),
    ensures
        metaindex_block(handles) == data_block(1, sorted_by_name(meta_entries(handles))),
        meta_entries(handles).len() == handles.len(),
        meta_entries(handles)[i] == (
            handles[i].0.spec_bytes(),
            varint(handles[i].1.offset as nat) + varint(handles[i].1.size as nat),
        ),
        handle_bytes(handles[i].1) == varint(handles[i].1.offset as nat) + varint(
            handles[i].1.size as nat,
        ),
{
}

/// What is wrong with a footer that is not read: it is too short, it has another
/// magic number, another version, too short a file, or another checksum byte;
/// before format version 6, a handle that is not there; after that, another mark,
/// another checksum, no room for the metaindex block, or reserved bytes that are
/// not zero. The first of these counts.
pub proof fn lemma_footer_faults(tail: Seq<u8>, file_size: u64)
    ensures
        ({
            let n = tail.len() as int;
            let magic = spec_u64_from_le_bytes(tail.subrange(n - 8, n));
            let version = spec_u32_from_le_bytes(tail.subrange(n - 12, n - 8));
            let part = tail.subrange(1, n - 12);
            let found = footer_at(tail, file_size);
            if n < 53 {
                found == Err::<Footer, FormatError>(FormatError::FooterTooShort)
            } else if magic != 0x88e2_41b7_85f4_cff7 {
                found == Err::<Footer, FormatError>(FormatError::UnknownMagic { magic })
            } else if version < 2 || version > 7 {
                found == Err::<Footer, FormatError>(
                    FormatError::UnsupportedVersion { format_version: version },
                )
            } else if file_size < 53 {
                found == Err::<Footer, FormatError>(FormatError::FileTooShort)
            } else if tail[0] > 4 {
                found == Err::<Footer, FormatError>(
                    FormatError::UnknownChecksumType { byte: tail[0] },
                )
            } else if version < 6 {
                match handle_at(part, 0) {
                    None => found == Err::<Footer, FormatError>(FormatError::BadMetaindexHandle),
                    Some((metaindex, mid)) => match handle_at(part, mid) {
                        None => found == Err::<Footer, FormatError>(FormatError::BadIndexHandle),
                        Some((index, _)) => found matches Ok(footer) && footer.metaindex_handle
                            == metaindex && footer.index_handle == Some(index)
                            && footer.base_context_checksum == 0,
                    },
                }
            } else {
                found == checked_footer(
                    tail,
                    file_size - 53,
                    version,
                    checksum_type_of(tail[0])->0,
                    checksum_of(
                        checksum_type_of(tail[0])->0,
                        tail.take(5) + spec_u32_to_le_bytes(0) + tail.skip(9),
                    ),
                )
            }
        }),
{
}

/// The part of a footer that format version 6 introduced, where the checksum of
/// the rest is given.
pub proof fn lemma_checked_footer(
    tail: Seq<u8>,
    footer_offset: u64,
    format_version: u32,
    ty: ChecksumType,
    checksum: u32,
)
    ensures
        ({
            let mark = spec_u32_from_le_bytes(tail.subrange(1, 5));
            let stored = spec_u32_from_le_bytes(tail.subrange(5, 9));
            let base = spec_u32_from_le_bytes(tail.subrange(9, 13));
            let size = spec_u32_from_le_bytes(tail.subrange(13, 17));
            let computed = placed(checksum, base, footer_offset);
            let found = checked_footer(tail, footer_offset as int, format_version, ty, checksum);
            if mark != 0x007a_003e {
                found == Err::<Footer, FormatError>(FormatError::BadExtendedMagic { found: mark })
            } else if ty != ChecksumType::NoChecksum && computed != stored {
                found == Err::<Footer, FormatError>(
                    FormatError::FooterChecksumMismatch { offset: footer_offset, stored, computed },
                )
            } else if footer_offset < size + 5 {
                found == Err::<Footer, FormatError>(FormatError::MetaindexBeforeFile)
            } else if spec_u64_from_le_bytes(tail.subrange(33, 41)) != 0 {
                found == Err::<Footer, FormatError>(FormatError::FutureFeature)
            } else {
                found == Ok::<Footer, FormatError>(
                    Footer {
                        table_magic_number: 0x88e2_41b7_85f4_cff7,
                        format_version,
                        checksum_type: ty,
                        metaindex_handle: BlockHandle {
                            offset: (footer_offset - 5 - size) as u64,
                            size: size as u64,
                        },
                        index_handle: None,
                        block_trailer_size: 5,
                        base_context_checksum: base,
                    },
                )
            }
        }),
{
}

/// A footer that states a given checksum.
pub proof fn lemma_stated_footer(
    checksum: u32,
    format_version: u32,
    ty: ChecksumType,
    metaindex_size: u32,
    base: u32,
)
    ensures
        footer_stating(checksum, format_version, ty, metaindex_size, base) == seq![ty.byte()]
            + spec_u32_to_le_bytes(0x007a_003e) + spec_u32_to_le_bytes(checksum)
            + spec_u32_to_le_bytes(base) + spec_u32_to_le_bytes(metaindex_size) + Seq::new(
            24,
            |i: int| 0u8,
        ) + spec_u32_to_le_bytes(format_version) + spec_u64_to_le_bytes(0x88e2_41b7_85f4_cff7),
        ty == ChecksumType::NoChecksum <==> ty.byte() == 0,
        ty == ChecksumType::Crc32c <==> ty.byte() == 1,
        ty == ChecksumType::XxHash <==> ty.byte() == 2,
        ty == ChecksumType::XxHash64 <==> ty.byte() == 3,
        ty == ChecksumType::XxH3 <==> ty.byte() == 4,
{
    assert(footer_stating(checksum, format_version, ty, metaindex_size, base) =~= seq![ty.byte()]
        + spec_u32_to_le_bytes(0x007a_003e) + spec_u32_to_le_bytes(checksum)
        + spec_u32_to_le_bytes(base) + spec_u32_to_le_bytes(metaindex_size) + Seq::new(
        24,
        |i: int| 0u8,
    ) + spec_u32_to_le_bytes(format_version) + spec_u64_to_le_bytes(0x88e2_41b7_85f4_cff7));
}

/// What is wrong with an entry that is not read: a number that is not there, more
/// kept than the key before it has, or bytes that are not there. The first of
/// these counts.
pub proof fn lemma_entry_faults(data: Seq<u8>, pos: int, last: Seq<u8>)
    ensures
        ({
            let found = entry_at(data, pos, last);
            match varint32_at(data, pos) {
                None => found == Err::<(Seq<u8>, Seq<u8>, int), FormatError>(
                    FormatError::TruncatedShared,
                ),
                Some((kept, p1)) => match varint32_at(data, p1) {
                    None => found == Err::<(Seq<u8>, Seq<u8>, int), FormatError>(
                        FormatError::TruncatedUnshared,
                    ),
                    Some((added, p2)) => match varint32_at(data, p2) {
                        None => found == Err::<(Seq<u8>, Seq<u8>, int), FormatError>(
                            FormatError::TruncatedValueLength,
                        ),
                        Some((len, p3)) => if kept > last.len() {
                            found == Err::<(Seq<u8>, Seq<u8>, int), FormatError>(
                                FormatError::SharedExceedsLastKey,
                            )
                        } else if p3 + added > data.len() {
                            found == Err::<(Seq<u8>, Seq<u8>, int), FormatError>(
                                FormatError::TruncatedKeyDelta,
                            )
                        } else if p3 + added + len > data.len() {
                            found == Err::<(Seq<u8>, Seq<u8>, int), FormatError>(
                                FormatError::TruncatedValue,
                            )
                        } else {
                            found is Ok
                        },
                    },
                },
            }
        }),
{
}

/// Whether reading ended well.
pub proof fn lemma_faults(fault: FormatError, contents: Seq<u8>, block: ParsedBlock)
    ensures
        unless_fault(None) == Ok::<(), FormatError>(()),
        unless_fault(Some(fault)) == Err::<(), FormatError>(fault),
        contents.len() < 4 ==> parsed(contents) == Err::<(Seq<u8>, Seq<u32>), FormatError>(
            FormatError::BlockTooSmall,
        ),
        contents.len() >= 4 && contents.len() < 4 + 4 * spec_u32_from_le_bytes(
            contents.subrange(contents.len() - 4, contents.len() as int),
        ) ==> parsed(contents) == Err::<(Seq<u8>, Seq<u32>), FormatError>(
            FormatError::RestartsOutOfBounds,
        ),
        block.wf() <==> block.contents@.len() >= 4 + 4 * block.restarts@.len(),
        block.wf() ==> block.entry_bytes() == block.contents@.take(
            block.contents@.len() - 4 - 4 * block.restarts@.len(),
        ),
{
}

/// The size in front of LZ4 and Zstd payloads.
pub proof fn lemma_size_in_front(data: Seq<u8>)
    ensures
        match varint64_at(data, 0) {
            None => sized_payload(data) == Err::<(usize, Seq<u8>), FormatError>(
                FormatError::BadSizePrefix,
            ),
            Some((size, end)) => if size > isize::MAX {
                sized_payload(data) == Err::<(usize, Seq<u8>), FormatError>(
                    FormatError::SizePrefixTooLarge { size },
                )
            } else {
                sized_payload(data) == Ok::<(usize, Seq<u8>), FormatError>(
                    (size as usize, data.skip(end)),
                )
            },
        },
{
}

/// What is wrong with an entry of an index block that is not read: a number that
/// is not there, more kept than the key before it has, bytes that are not there,
/// or a handle that is not there or cannot be told without the one before.
pub proof fn lemma_index_entry_faults(
    data: Seq<u8>,
    restarts: Seq<u32>,
    pos: int,
    last: Seq<u8>,
    prev: Option<BlockHandle>,
)
    ensures
        ({
            let found = index_entry_at(data, restarts, pos, last, prev);
            match varint32_at(data, pos) {
                None => found == Err::<(Seq<u8>, BlockHandle, int), FormatError>(
                    FormatError::TruncatedShared,
                ),
                Some((kept, p1)) => match varint32_at(data, p1) {
                    None => found == Err::<(Seq<u8>, BlockHandle, int), FormatError>(
                        FormatError::TruncatedUnshared,
                    ),
                    Some((added, p2)) => if kept > last.len() {
                        found == Err::<(Seq<u8>, BlockHandle, int), FormatError>(
                            FormatError::SharedExceedsLastKey,
                        )
                    } else if p2 + added > data.len() {
                        found == Err::<(Seq<u8>, BlockHandle, int), FormatError>(
                            FormatError::TruncatedKeyDelta,
                        )
                    } else {
                        let full = kept == 0 || exists|i: int|
                            0 <= i < restarts.len() && #[trigger] restarts[i] as int == pos;
                        match varint64_at(data, p2 + added) {
                            None => found == Err::<(Seq<u8>, BlockHandle, int), FormatError>(
                                if full {
                                    FormatError::TruncatedHandleOffset
                                } else if prev is None {
                                    FormatError::NoPreviousHandle
                                } else {
                                    FormatError::TruncatedSizeDelta
                                },
                            ),
                            Some((_, mid)) => {
                                &&& full && varint64_at(data, mid) is None ==> found == Err::<
                                    (Seq<u8>, BlockHandle, int),
                                    FormatError,
                                >(FormatError::TruncatedHandleSize)
                                &&& full && varint64_at(data, mid) is Some ==> found is Ok
                                &&& !full && prev is None ==> found == Err::<
                                    (Seq<u8>, BlockHandle, int),
                                    FormatError,
                                >(FormatError::NoPreviousHandle)
                            },
                        }
                    },
                },
            }
        }),
{
}

/// What visitors make of index entries, one after the other.
pub proof fn lemma_handle_visits<V: HandleVisitor>(
    state: V::State,
    entries: Seq<IndexEntry>,
    entry: IndexEntry,
)
    ensures
        visit_handles::<V>(state, Seq::empty()) == state,
        visit_handles::<V>(state, entries.push(entry)) == V::after(
            visit_handles::<V>(state, entries),
            entry.0,
            entry.1,
        ),
{
    assert(entries.push(entry).drop_last() =~= entries);
}

/// A length that is spelled with `q` bytes of 255 and another one.
proof fn lemma_spelled_length(data: Seq<u8>, pos: int, q: int)
    requires
        0 <= pos,
        0 <= q,
        pos + q < data.len(),
        forall|j: int| pos <= j < pos + q ==> data[j] == 255,
        data[pos + q] < 255,
    ensures
        length_sum(data, pos) == 255 * q + data[pos + q],
        length_end(data, pos) == Some(pos + q + 1),
    decreases q,
{
    if q > 0 {
        lemma_spelled_length(data, pos + 1, q - 1);
    }
}

/// What an LZ4 block is made of, token by token: a token, in whose upper half a
/// length below fifteen stands, or fifteen and then `q` bytes of 255 and another
/// byte to be added; so many literal bytes, whatever their values; two bytes of an
/// offset; and a length for the lower half in the same way. A token whose lengths
/// are spelled with less than two billion is left to the decoder, and so is the
/// last one, which ends with its literals.
#[verifier::rlimit(50)]
pub proof fn lemma_lz4_tokens(data: Seq<u8>, pos: int, q: int, len: int, start: int, p: int, next: int)
    requires
        0 <= pos < data.len(),
        ({
            let half = data[pos] as int / 16;
            if half < 15 {
                len == half && start == pos + 1
            } else {
                &&& 0 <= q
                &&& pos + 1 + q < data.len()
                &&& forall|j: int| pos + 1 <= j < pos + 1 + q ==> data[j] == 255
                &&& data[pos + 1 + q] < 255
                &&& len == 15 + 255 * q + data[pos + 1 + q]
                &&& len <= 2_000_000_000
                &&& start == pos + 2 + q
            }
        }),
        start + len <= data.len(),
    ensures
        has_long_length(data) == long_length_from(data, 0),
        data.len() < start + len + 2 ==> !long_length_from(data, pos),
        data.len() >= start + len + 2 && ({
            let half = data[pos] as int % 16;
            let at = start + len + 2;
            if half < 15 {
                next == at
            } else {
                &&& 0 <= p
                &&& at + p < data.len()
                &&& forall|j: int| at <= j < at + p ==> data[j] == 255
                &&& data[at + p] < 255
                &&& 15 + 255 * p + data[at + p] <= 2_000_000_000
                &&& next == at + p + 1
            }
        }) ==> long_length_from(data, pos) == long_length_from(data, next),
        !long_length_from(data, data.len() as int),
{
    let upper = data[pos] / 16;
    let lower = data[pos] % 16;
    if upper >= 15 {
        lemma_spelled_length(data, pos + 1, q);
    }
    assert(literals_end(data, pos) == Some(start + len));
    let at = start + len + 2;
    if lower >= 15 && 0 <= p && at + p < data.len() && data[at + p] < 255 && (forall|j: int|
        at <= j < at + p ==> data[j] == 255) {
        lemma_spelled_length(data, at, p);
    }
}

/// A length that is spelled with more than 32 bits is not left to the decoder.
pub proof fn lemma_lz4_overflow(data: Seq<u8>, q: int, size: u64, stored: Seq<u8>, end: int)
    requires
        data.len() > 0,
        data[0] as int / 16 == 15,
        0 <= q,
        1 + q < data.len(),
        forall|j: int| 1 <= j < 1 + q ==> data[j] == 255,
        data[1 + q] < 255,
        255 * q + data[1 + q] > 0xffff_ffff,
        varint64_at(stored, 0) == Some((size, end)),
        size <= isize::MAX,
        stored.skip(end) == data,
    ensures
        has_long_length(data),
        decompressed(CompressionType::Lz4, stored) == Err::<Seq<u8>, FormatError>(
            FormatError::Lz4LengthTooLong,
        ),
{
    lemma_spelled_length(data, 1, q);
}

/// Any block of less than nine quintillion bytes can be the next of an index, and
/// any at all where a restart point stands at every entry. The last key of some
/// entries is that of the last one.
pub proof fn lemma_next_index_entry(
    interval: int,
    before: Seq<IndexEntry>,
    key: Seq<u8>,
    handle: BlockHandle,
    entries: Seq<Entry>,
)
    requires
        interval >= 1,
    ensures
        handle.size <= i64::MAX && (before.len() > 0 ==> before.last().1.size <= i64::MAX)
            ==> index_entry_fits(interval, before, key, handle),
        interval == 1 ==> index_entry_fits(interval, before, key, handle),
        entries.len() > 0 ==> last_key(entries) == entries[entries.len() - 1].0,
        entries.len() == 0 ==> last_key(entries).len() == 0,
        before.len() > 0 ==> last_index_key(before) == before[before.len() - 1].0,
        before.len() == 0 ==> last_index_key(before).len() == 0,
{
}

} // verus!
