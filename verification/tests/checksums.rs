use compactor::error::FormatError;
use compactor::format::block::{
    append_checksum, check_trailer, decode_block_contents, encode_block_with_trailer,
    CompressionType,
};
use compactor::format::checksum::{
    checksum_modifier_for_context, compute_checksum, lower_half, mask_crc32c,
    modify_checksum_for_last_byte, place_checksum,
};
use compactor::format::footer::{BlockHandle, ChecksumType};

const ALL_TYPES: [ChecksumType; 5] = [
    ChecksumType::NoChecksum,
    ChecksumType::Crc32c,
    ChecksumType::XxHash,
    ChecksumType::XxHash64,
    ChecksumType::XxH3,
];

#[test]
fn checksum_types_and_bytes_are_inverse() {
    for (byte, ty) in ALL_TYPES.iter().enumerate() {
        assert_eq!(ty.to_byte(), byte as u8);
        assert_eq!(ChecksumType::from_byte(byte as u8), Some(*ty));
    }
    assert_eq!(ChecksumType::from_byte(5), None);
    assert_eq!(ChecksumType::from_byte(255), None);
}

#[test]
fn crc_is_masked() {
    // The CRC-32C of the digits is 0xe3069283.
    assert_eq!(
        compute_checksum(ChecksumType::Crc32c, b"123456789"),
        0xc78a_b0e5
    );
}

#[test]
fn xxhash_values() {
    assert_eq!(compute_checksum(ChecksumType::XxHash, b""), 0x02cc_5d05);
    assert_eq!(compute_checksum(ChecksumType::XxHash, b"a"), 0x550d_7456);
}

#[test]
fn xxhash64_values_are_cut_to_their_lower_half() {
    // The hashes are 0xef46db3751d8e999 and 0xd24ec4f1a98c6e5b.
    assert_eq!(compute_checksum(ChecksumType::XxHash64, b""), 0x51d8_e999);
    assert_eq!(compute_checksum(ChecksumType::XxHash64, b"a"), 0xa98c_6e5b);
}

#[test]
fn xxh3_folds_the_last_byte_in() {
    // The hash of no bytes is 0x2d06800538d394c2.
    assert_eq!(compute_checksum(ChecksumType::XxH3, b""), 0);
    assert_eq!(compute_checksum(ChecksumType::XxH3, &[0]), 0x38d3_94c2);
    assert_eq!(compute_checksum(ChecksumType::XxH3, &[1]), 0x5343_171b);
    assert_eq!(
        compute_checksum(ChecksumType::XxH3, &[1]),
        modify_checksum_for_last_byte(0x38d3_94c2, 1)
    );
}

#[test]
fn no_checksum_is_zero() {
    assert_eq!(compute_checksum(ChecksumType::NoChecksum, b"anything"), 0);
}

#[test]
fn last_byte_is_multiplied() {
    assert_eq!(modify_checksum_for_last_byte(0x1234_5678, 0), 0x1234_5678);
    assert_eq!(modify_checksum_for_last_byte(0, 1), 0x6b90_83d9);
    assert_eq!(
        modify_checksum_for_last_byte(0x1234_5678, 5),
        0x0be6_c545
    );
}

#[test]
fn context_depends_on_both_halves_of_the_offset() {
    assert_eq!(checksum_modifier_for_context(0, 77), 0);
    assert_eq!(checksum_modifier_for_context(0xf0, 0x0f), 0xff);
    assert_eq!(checksum_modifier_for_context(1, 0x1_0000_0002), 2);
    assert_eq!(checksum_modifier_for_context(1, 0xffff_ffff_ffff_ffff), 0xffff_ffff);
}

#[test]
fn stored_blocks_are_read_back_whatever_their_checksum() {
    let contents = b"some block contents".to_vec();
    for ty in ALL_TYPES {
        for (offset, base) in [(0u64, 0u32), (4096, 0xdead_beef), (1 << 40, 7)] {
            let stored = encode_block_with_trailer(contents.clone(), offset, ty, base);
            assert_eq!(stored.len(), contents.len() + 5);
            let handle = BlockHandle {
                offset,
                size: contents.len() as u64,
            };
            assert_eq!(
                decode_block_contents(stored, handle, ty, base),
                Ok(contents.clone())
            );
        }
    }
}

#[test]
fn stored_block_has_its_checksum_behind_the_compression_byte() {
    let stored = encode_block_with_trailer(b"12345678".to_vec(), 0, ChecksumType::XxHash, 0);
    let sum = compute_checksum(ChecksumType::XxHash, b"12345678\0");
    assert_eq!(&stored[..9], b"12345678\0");
    assert_eq!(&stored[9..], &sum.to_le_bytes());
}

#[test]
fn a_block_that_was_moved_is_noticed() {
    let stored = encode_block_with_trailer(b"abc".to_vec(), 100, ChecksumType::XxH3, 9);
    let elsewhere = BlockHandle {
        offset: 200,
        size: 3,
    };
    assert!(matches!(
        decode_block_contents(stored.clone(), elsewhere, ChecksumType::XxH3, 9),
        Err(FormatError::BlockChecksumMismatch { offset: 200, .. })
    ));
    // Without checksums nothing is noticed.
    assert_eq!(
        decode_block_contents(stored, elsewhere, ChecksumType::NoChecksum, 9),
        Ok(b"abc".to_vec())
    );
}

#[test]
fn checksum_mismatch_states_both_checksums() {
    let mut stored = encode_block_with_trailer(b"abc".to_vec(), 0, ChecksumType::Crc32c, 0);
    let computed = compute_checksum(ChecksumType::Crc32c, b"abc\0");
    stored[4..8].copy_from_slice(&0u32.to_le_bytes());
    assert_eq!(
        decode_block_contents(
            stored,
            BlockHandle { offset: 0, size: 3 },
            ChecksumType::Crc32c,
            0
        ),
        Err(FormatError::BlockChecksumMismatch {
            offset: 0,
            stored: 0,
            computed,
        })
    );
}

#[test]
fn size_mismatch_is_an_error() {
    let stored = encode_block_with_trailer(b"abc".to_vec(), 0, ChecksumType::Crc32c, 0);
    assert_eq!(
        decode_block_contents(
            stored,
            BlockHandle { offset: 0, size: 4 },
            ChecksumType::Crc32c,
            0
        ),
        Err(FormatError::BlockSizeMismatch { size: 4, actual: 8 })
    );
    assert_eq!(
        decode_block_contents(
            vec![0; 4],
            BlockHandle { offset: 0, size: 0 },
            ChecksumType::NoChecksum,
            0
        ),
        Err(FormatError::BlockSizeMismatch { size: 0, actual: 4 })
    );
}

#[test]
fn a_trailer_is_checked_against_the_checksum_that_is_given() {
    let block = append_checksum(b"abc\x07".to_vec(), 0x1122_3344, 5, 0);
    assert_eq!(block, b"abc\x07\x44\x33\x22\x11");
    let handle = BlockHandle { offset: 5, size: 3 };
    assert_eq!(
        check_trailer(&block, handle, ChecksumType::Crc32c, 0, 0x1122_3344),
        Ok(CompressionType::Zstd)
    );
    assert_eq!(
        check_trailer(&block, handle, ChecksumType::Crc32c, 0, 0x1122_3345),
        Err(FormatError::BlockChecksumMismatch {
            offset: 5,
            stored: 0x1122_3344,
            computed: 0x1122_3345,
        })
    );
    assert_eq!(
        check_trailer(&block, handle, ChecksumType::NoChecksum, 0, 0),
        Ok(CompressionType::Zstd)
    );
    assert_eq!(
        check_trailer(&block[1..], handle, ChecksumType::NoChecksum, 0, 0),
        Err(FormatError::BlockSizeMismatch { size: 3, actual: 7 })
    );
    // The place counts where a base is given: 1 ^ 5 is added.
    assert_eq!(place_checksum(0xffff_ffff, 1, 5), 3);
    let block = append_checksum(b"abc\0".to_vec(), 0xffff_ffff, 5, 1);
    assert_eq!(block[4..], [3, 0, 0, 0]);
    assert_eq!(
        check_trailer(&block, handle, ChecksumType::XxHash, 1, 0xffff_ffff),
        Ok(CompressionType::NoCompression)
    );
}

#[test]
fn hashes_are_masked_and_cut() {
    assert_eq!(mask_crc32c(0xe306_9283), 0xc78a_b0e5);
    assert_eq!(mask_crc32c(0), 0xa282_ead8);
    assert_eq!(lower_half(0xef46_db37_51d8_e999), 0x51d8_e999);
    assert_eq!(lower_half(7), 7);
}

#[test]
fn the_last_byte_counts_like_any_other() {
    let data = b"some block contents";
    let mut summed = data.to_vec();
    summed.push(4);
    assert_eq!(
        compute_checksum(ChecksumType::Crc32c, &summed),
        mask_crc32c(crc32c::crc32c_append(crc32c::crc32c(data), &[4]))
    );
    let mut hasher = xxhash_rust::xxh32::Xxh32::new(0);
    hasher.update(data);
    hasher.update(&[4]);
    assert_eq!(
        compute_checksum(ChecksumType::XxHash, &summed),
        hasher.digest()
    );
    let mut hasher = xxhash_rust::xxh64::Xxh64::new(0);
    hasher.update(data);
    hasher.update(&[4]);
    assert_eq!(
        compute_checksum(ChecksumType::XxHash64, &summed),
        lower_half(hasher.digest())
    );
    assert_eq!(
        compute_checksum(ChecksumType::XxH3, &summed),
        modify_checksum_for_last_byte(lower_half(xxhash_rust::xxh3::xxh3_64(data)), 4)
    );
}
