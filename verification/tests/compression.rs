use compactor::error::FormatError;
use compactor::format::block::{decode_block_contents, CompressionType};
use compactor::format::checksum::compute_checksum;
use compactor::format::codec::{decompress_block, split_uncompressed_size_prefix};
use compactor::format::footer::{BlockHandle, ChecksumType};
use compactor::format::varint::put_varint64;

/// Something that compresses.
fn sample() -> Vec<u8> {
    let mut data = Vec::new();
    for i in 0..200u32 {
        data.extend_from_slice(format!("entry {} of many, ", i % 7).as_bytes());
    }
    data
}

fn with_size(size: u64, payload: &[u8]) -> Vec<u8> {
    let mut data = Vec::new();
    put_varint64(&mut data, size);
    data.extend_from_slice(payload);
    data
}

/// The block as it stands in a file.
fn stored(payload: &[u8], compression: CompressionType) -> Vec<u8> {
    let mut block = payload.to_vec();
    block.push(compression.to_byte());
    let sum = compute_checksum(ChecksumType::XxH3, &block);
    block.extend_from_slice(&sum.to_le_bytes());
    block
}

fn read(payload: &[u8], compression: CompressionType) -> Result<Vec<u8>, FormatError> {
    let handle = BlockHandle {
        offset: 0,
        size: payload.len() as u64,
    };
    decode_block_contents(stored(payload, compression), handle, ChecksumType::XxH3, 0)
}

#[test]
fn compression_types_and_bytes_are_inverse() {
    let all = [
        CompressionType::NoCompression,
        CompressionType::Snappy,
        CompressionType::Zlib,
        CompressionType::BZip2,
        CompressionType::Lz4,
        CompressionType::Lz4Hc,
        CompressionType::Xpress,
        CompressionType::Zstd,
    ];
    for (byte, ty) in all.iter().enumerate() {
        assert_eq!(ty.to_byte(), byte as u8);
        assert_eq!(CompressionType::from_byte(byte as u8), Ok(*ty));
    }
    assert_eq!(
        CompressionType::from_byte(8),
        Err(FormatError::UnknownCompression { byte: 8 })
    );
}

#[test]
fn snappy_blocks_are_read() {
    let data = sample();
    let packed = snap::raw::Encoder::new().compress_vec(&data).unwrap();
    assert!(packed.len() < data.len());
    assert_eq!(read(&packed, CompressionType::Snappy), Ok(data));
}

#[test]
fn lz4_blocks_are_read() {
    let data = sample();
    let packed = lz4_flex::block::compress(&data);
    assert!(packed.len() < data.len());
    let payload = with_size(data.len() as u64, &packed);
    assert_eq!(read(&payload, CompressionType::Lz4), Ok(data.clone()));
    assert_eq!(read(&payload, CompressionType::Lz4Hc), Ok(data));
}

#[test]
fn zstd_blocks_are_read() {
    let data = sample();
    let packed = zstd::bulk::compress(&data, 3).unwrap();
    assert!(packed.len() < data.len());
    let payload = with_size(data.len() as u64, &packed);
    assert_eq!(read(&payload, CompressionType::Zstd), Ok(data));
}

#[test]
fn uncompressed_blocks_are_read() {
    assert_eq!(
        decompress_block(CompressionType::NoCompression, b"as it is"),
        Ok(b"as it is".to_vec())
    );
    assert_eq!(
        read(b"as it is", CompressionType::NoCompression),
        Ok(b"as it is".to_vec())
    );
}

#[test]
fn other_compressions_cannot_be_read() {
    for compression in [
        CompressionType::Zlib,
        CompressionType::BZip2,
        CompressionType::Xpress,
    ] {
        assert_eq!(
            read(b"abc", compression),
            Err(FormatError::UnsupportedCompression { compression })
        );
    }
}

#[test]
fn unknown_compression_byte_is_an_error() {
    let mut block = b"abc".to_vec();
    block.push(0x80);
    let sum = compute_checksum(ChecksumType::XxH3, &block);
    block.extend_from_slice(&sum.to_le_bytes());
    assert_eq!(
        decode_block_contents(
            block,
            BlockHandle { offset: 0, size: 3 },
            ChecksumType::XxH3,
            0
        ),
        Err(FormatError::UnknownCompression { byte: 0x80 })
    );
}

#[test]
fn broken_payloads_are_refused() {
    assert_eq!(
        read(&[0xff; 20], CompressionType::Snappy),
        Err(FormatError::SnappyFailed)
    );
    assert_eq!(
        read(&with_size(100, &[0xf0, 1, 2]), CompressionType::Lz4),
        Err(FormatError::Lz4Failed)
    );
    assert_eq!(
        read(&with_size(100, b"not zstd"), CompressionType::Zstd),
        Err(FormatError::ZstdFailed)
    );
}

#[test]
fn size_prefix_is_split_off() {
    assert_eq!(
        split_uncompressed_size_prefix(&with_size(300, b"rest")),
        Ok((300, &b"rest"[..]))
    );
    assert_eq!(
        split_uncompressed_size_prefix(&with_size(0, b"")),
        Ok((0, &b""[..]))
    );
    assert_eq!(
        split_uncompressed_size_prefix(&[0x80]),
        Err(FormatError::BadSizePrefix)
    );
    assert_eq!(
        read(&[0x80], CompressionType::Zstd),
        Err(FormatError::BadSizePrefix)
    );
}

#[test]
fn size_prefix_beyond_memory_is_refused() {
    let size = u64::MAX;
    for compression in [
        CompressionType::Lz4,
        CompressionType::Lz4Hc,
        CompressionType::Zstd,
    ] {
        assert_eq!(
            read(&with_size(size, b"abc"), compression),
            Err(FormatError::SizePrefixTooLarge { size })
        );
    }
}

/// So many bytes of 255 add up to the largest number of 32 bits.
const FULL_RUN: usize = 0x0101_0101;

/// A start, bytes of 255 that add up to the largest number of 32 bits, and an
/// end.
fn around_full_run(start: &[u8], end: &[u8]) -> Vec<u8> {
    let mut payload = start.to_vec();
    payload.resize(start.len() + FULL_RUN, 0xff);
    payload.extend_from_slice(end);
    with_size(10, &payload)
}

#[test]
fn lz4_lengths_that_cannot_be_added_up_are_refused() {
    // The length of the literals.
    assert_eq!(
        decompress_block(CompressionType::Lz4, &around_full_run(&[0xf0], &[1])),
        Err(FormatError::Lz4LengthTooLong)
    );
    // The length of the match, behind a literal and an offset.
    assert_eq!(
        decompress_block(
            CompressionType::Lz4Hc,
            &around_full_run(&[0x1f, 7, 1, 0], &[1])
        ),
        Err(FormatError::Lz4LengthTooLong)
    );
    // The same behind another token.
    assert_eq!(
        decompress_block(
            CompressionType::Lz4,
            &around_full_run(&[0x10, 7, 1, 0, 0xf0], &[255])
        ),
        Err(FormatError::Lz4LengthTooLong)
    );
}

#[test]
fn lz4_lengths_that_can_just_be_added_up_are_left_to_the_decoder() {
    assert_eq!(
        decompress_block(CompressionType::Lz4, &around_full_run(&[0xf0], &[0])),
        Err(FormatError::Lz4Failed)
    );
    assert_eq!(
        decompress_block(CompressionType::Lz4, &around_full_run(&[0xf0], &[])),
        Err(FormatError::Lz4Failed)
    );
    assert_eq!(
        decompress_block(CompressionType::Lz4, &around_full_run(&[0x1f, 7, 1, 0], &[0])),
        Err(FormatError::Lz4Failed)
    );
}

#[test]
fn lz4_literals_of_any_value_are_read() {
    let data = vec![0xff; FULL_RUN + 1_000_000];
    let mut payload = vec![0xf0];
    let mut rest = data.len() - 15;
    while rest >= 255 {
        payload.push(255);
        rest -= 255;
    }
    payload.push(rest as u8);
    payload.extend_from_slice(&data);
    let stored = with_size(data.len() as u64, &payload);
    assert!(decompress_block(CompressionType::Lz4, &stored) == Ok(data));
}

#[test]
fn zstd_frames_hold_no_more_than_is_said() {
    let data = sample();
    let packed = zstd::bulk::compress(&data, 3).unwrap();
    for size in [0, 1, data.len() - 1] {
        assert_eq!(
            read(&with_size(size as u64, &packed), CompressionType::Zstd),
            Err(FormatError::ZstdFailed)
        );
    }
    let size = data.len() as u64 + 1;
    assert_eq!(
        read(&with_size(size, &packed), CompressionType::Zstd),
        Ok(data)
    );
}

#[test]
fn snappy_sizes_that_the_decoder_refuses_are_left_to_it() {
    // Six digits, and a size of more than 32 bits.
    for size in [u64::MAX, 1 << 40, 1 << 32] {
        assert_eq!(
            read(&with_size(size, b"abc"), CompressionType::Snappy),
            Err(FormatError::SnappyFailed)
        );
    }
}

#[test]
fn old_zstd_frames_need_a_larger_buffer() {
    // A frame of an early format: three literals, and a match of three bytes at
    // a distance of three.
    let frame = [
        0x27, 0xb5, 0x2f, 0xfd, 0x00, 0x00, 0x00, 0x00, 0x0a, 0x83, b'a', b'b', b'c', 0x01, 0x54,
        0x03, 0x02, 0x00, 0x06, 0xc0, 0x00, 0x00,
    ];
    assert_eq!(
        read(&with_size(64, &frame), CompressionType::Zstd),
        Ok(b"abcabc".to_vec())
    );
    assert_eq!(
        read(&with_size(6, &frame), CompressionType::Zstd),
        Err(FormatError::ZstdFailed)
    );
}
