use compactor::error::FormatError;
use compactor::format::checksum::compute_checksum;
use compactor::format::footer::{
    check_footer, decode_block_handle, decode_footer, encode_footer_v6_plus, footer_with_checksum,
    BlockHandle, ChecksumType, Footer, BLOCK_BASED_TABLE_MAGIC, EXTENDED_MAGIC, FOOTER_TAIL_LEN,
};
use compactor::format::varint::put_varint64;

const HANDLE: BlockHandle = BlockHandle {
    offset: 40,
    size: 60,
};

/// The footer of a file whose metaindex block is at `HANDLE`.
fn footer(checksum_type: ChecksumType) -> Vec<u8> {
    encode_footer_v6_plus(6, checksum_type, HANDLE, 0, 105)
}

const FILE_SIZE: u64 = 105 + 53;

/// A footer of an older format.
fn old_footer(format_version: u32, handles: &[u64]) -> Vec<u8> {
    let mut tail = vec![ChecksumType::Crc32c.to_byte()];
    for number in handles {
        put_varint64(&mut tail, *number);
    }
    tail.resize(41, 0);
    tail.extend_from_slice(&format_version.to_le_bytes());
    tail.extend_from_slice(&BLOCK_BASED_TABLE_MAGIC.to_le_bytes());
    tail
}

#[test]
fn footer_bytes_in_order() {
    let bytes = encode_footer_v6_plus(7, ChecksumType::NoChecksum, HANDLE, 0, 105);
    let mut want = vec![0u8];
    want.extend_from_slice(&[0x3e, 0x00, 0x7a, 0x00]);
    want.extend_from_slice(&[0; 4]);
    want.extend_from_slice(&[0; 4]);
    want.extend_from_slice(&60u32.to_le_bytes());
    want.extend_from_slice(&[0; 24]);
    want.extend_from_slice(&7u32.to_le_bytes());
    want.extend_from_slice(&[0xf7, 0xcf, 0xf4, 0x85, 0xb7, 0x41, 0xe2, 0x88]);
    assert_eq!(bytes, want);
    assert_eq!(bytes.len(), FOOTER_TAIL_LEN);
    assert_eq!(EXTENDED_MAGIC.to_le_bytes(), [0x3e, 0x00, 0x7a, 0x00]);
}

#[test]
fn footer_checksum_is_taken_with_its_field_zeroed() {
    let bytes = footer(ChecksumType::Crc32c);
    let mut blank = bytes.clone();
    blank[5..9].fill(0);
    assert_eq!(
        bytes[5..9],
        compute_checksum(ChecksumType::Crc32c, &blank).to_le_bytes()
    );
}

#[test]
fn footers_are_read_back_whatever_their_checksum() {
    for checksum_type in [
        ChecksumType::NoChecksum,
        ChecksumType::Crc32c,
        ChecksumType::XxHash,
        ChecksumType::XxHash64,
        ChecksumType::XxH3,
    ] {
        for (format_version, base) in [(6u32, 0u32), (7, 0xffff_ffff)] {
            let bytes = encode_footer_v6_plus(format_version, checksum_type, HANDLE, base, 105);
            assert_eq!(
                decode_footer(&bytes, FILE_SIZE),
                Ok(Footer {
                    table_magic_number: BLOCK_BASED_TABLE_MAGIC,
                    format_version,
                    checksum_type,
                    metaindex_handle: HANDLE,
                    index_handle: None,
                    block_trailer_size: 5,
                    base_context_checksum: base,
                })
            );
        }
    }
}

#[test]
fn older_footers_hold_two_handles() {
    for format_version in 2..=5 {
        assert_eq!(
            decode_footer(&old_footer(format_version, &[1000, 20, 300, 700]), 5000),
            Ok(Footer {
                table_magic_number: BLOCK_BASED_TABLE_MAGIC,
                format_version,
                checksum_type: ChecksumType::Crc32c,
                metaindex_handle: BlockHandle {
                    offset: 1000,
                    size: 20,
                },
                index_handle: Some(BlockHandle {
                    offset: 300,
                    size: 700,
                }),
                block_trailer_size: 5,
                base_context_checksum: 0,
            })
        );
    }
}

#[test]
fn older_footers_without_handles_are_refused() {
    let endless = [0xff; 40];
    let mut tail = old_footer(5, &[]);
    tail[1..41].copy_from_slice(&endless);
    assert_eq!(
        decode_footer(&tail, 5000),
        Err(FormatError::BadMetaindexHandle)
    );
    let mut tail = old_footer(5, &[1, 2]);
    tail[3..41].copy_from_slice(&endless[..38]);
    assert_eq!(decode_footer(&tail, 5000), Err(FormatError::BadIndexHandle));
}

#[test]
fn handles_are_two_varints() {
    let mut pos = 1;
    assert_eq!(
        decode_block_handle(&[9, 0xac, 0x02, 5, 9], &mut pos),
        Some(BlockHandle {
            offset: 300,
            size: 5,
        })
    );
    assert_eq!(pos, 4);
    let mut pos = 0;
    assert_eq!(decode_block_handle(&[1, 0x80], &mut pos), None);
}

#[test]
fn file_has_to_be_as_long_as_its_footer() {
    let mut bytes = footer(ChecksumType::NoChecksum);
    assert_eq!(decode_footer(&bytes, 52), Err(FormatError::FileTooShort));
    assert_eq!(
        decode_footer(&bytes, 53),
        Err(FormatError::MetaindexBeforeFile)
    );
    // What is wrong with the bytes themselves comes first.
    let n = bytes.len();
    bytes[n - 12] = 9;
    assert_eq!(
        decode_footer(&bytes, 0),
        Err(FormatError::UnsupportedVersion { format_version: 9 })
    );
    bytes[n - 1] ^= 1;
    assert!(matches!(
        decode_footer(&bytes, 0),
        Err(FormatError::UnknownMagic { .. })
    ));
}

#[test]
fn short_footer_is_refused() {
    let bytes = footer(ChecksumType::Crc32c);
    assert_eq!(
        decode_footer(&bytes[1..], FILE_SIZE),
        Err(FormatError::FooterTooShort)
    );
    assert_eq!(decode_footer(&[], 0), Err(FormatError::FooterTooShort));
}

#[test]
fn other_magic_numbers_are_refused() {
    let mut bytes = footer(ChecksumType::Crc32c);
    bytes[45..].copy_from_slice(&7u64.to_le_bytes());
    assert_eq!(
        decode_footer(&bytes, FILE_SIZE),
        Err(FormatError::UnknownMagic { magic: 7 })
    );
}

#[test]
fn other_versions_are_refused() {
    for format_version in [0u32, 1, 8, 1 << 31] {
        let mut bytes = footer(ChecksumType::Crc32c);
        bytes[41..45].copy_from_slice(&format_version.to_le_bytes());
        assert_eq!(
            decode_footer(&bytes, FILE_SIZE),
            Err(FormatError::UnsupportedVersion { format_version })
        );
    }
}

#[test]
fn other_checksum_types_are_refused() {
    let mut bytes = footer(ChecksumType::Crc32c);
    bytes[0] = 5;
    assert_eq!(
        decode_footer(&bytes, FILE_SIZE),
        Err(FormatError::UnknownChecksumType { byte: 5 })
    );
}

#[test]
fn bad_extended_magic_is_refused() {
    let mut bytes = footer(ChecksumType::Crc32c);
    bytes[1..5].copy_from_slice(&1u32.to_le_bytes());
    assert_eq!(
        decode_footer(&bytes, FILE_SIZE),
        Err(FormatError::BadExtendedMagic { found: 1 })
    );
}

#[test]
fn footer_checksum_mismatch_states_both_checksums() {
    let mut bytes = footer(ChecksumType::XxHash);
    let computed = u32::from_le_bytes([bytes[5], bytes[6], bytes[7], bytes[8]]);
    bytes[5..9].fill(0);
    assert_eq!(
        decode_footer(&bytes, FILE_SIZE),
        Err(FormatError::FooterChecksumMismatch {
            offset: 105,
            stored: 0,
            computed,
        })
    );
    // The place of a footer counts where a base is given.
    let bytes = encode_footer_v6_plus(7, ChecksumType::XxHash, HANDLE, 3, 105);
    assert!(matches!(
        decode_footer(&bytes, FILE_SIZE + 1),
        Err(FormatError::FooterChecksumMismatch { offset: 106, .. })
    ));
}

#[test]
fn metaindex_block_has_to_be_inside_the_file() {
    let bytes = footer(ChecksumType::NoChecksum);
    assert_eq!(
        decode_footer(&bytes, FILE_SIZE - 40),
        Ok(Footer {
            table_magic_number: BLOCK_BASED_TABLE_MAGIC,
            format_version: 6,
            checksum_type: ChecksumType::NoChecksum,
            metaindex_handle: BlockHandle {
                offset: 0,
                size: 60,
            },
            index_handle: None,
            block_trailer_size: 5,
            base_context_checksum: 0,
        })
    );
    assert_eq!(
        decode_footer(&bytes, FILE_SIZE - 41),
        Err(FormatError::MetaindexBeforeFile)
    );
}

#[test]
fn reserved_bytes_are_for_later_features() {
    let mut bytes = footer(ChecksumType::NoChecksum);
    // The first sixteen are not looked at.
    bytes[17] = 1;
    assert!(decode_footer(&bytes, FILE_SIZE).is_ok());
    bytes[40] = 1;
    assert_eq!(
        decode_footer(&bytes, FILE_SIZE),
        Err(FormatError::FutureFeature)
    );
}

#[test]
fn a_footer_is_checked_against_the_checksum_that_is_given() {
    let bytes = footer_with_checksum(77, 7, ChecksumType::XxH3, 60, 0);
    assert_eq!(
        check_footer(&bytes, 105, 7, ChecksumType::XxH3, 77),
        Ok(Footer {
            table_magic_number: BLOCK_BASED_TABLE_MAGIC,
            format_version: 7,
            checksum_type: ChecksumType::XxH3,
            metaindex_handle: HANDLE,
            index_handle: None,
            block_trailer_size: 5,
            base_context_checksum: 0,
        })
    );
    assert_eq!(
        check_footer(&bytes, 105, 7, ChecksumType::XxH3, 78),
        Err(FormatError::FooterChecksumMismatch {
            offset: 105,
            stored: 77,
            computed: 78,
        })
    );
}
