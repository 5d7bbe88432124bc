//! Everything that can be wrong with a table file or one of its parts.

use crate::format::codec::CompressionType;
use vstd::prelude::*;

verus! {

#[derive(Debug, Clone, Copy, PartialEq, Eq, Structural)]
pub enum FormatError {
    /// An internal key is shorter than its eight-byte suffix.
    InternalKeyTooShort,
    /// A file is shorter than a footer.
    FileTooShort,
    /// The bytes given as a footer are fewer than a footer has.
    FooterTooShort,
    /// The last eight bytes are not those of a block-based table.
    UnknownMagic { magic: u64 },
    /// The format version is none of those that can be read.
    UnsupportedVersion { format_version: u32 },
    /// The footer names a checksum that does not exist.
    UnknownChecksumType { byte: u8 },
    /// The second magic number of a newer footer is wrong.
    BadExtendedMagic { found: u32 },
    /// The footer does not have the checksum that it states.
    FooterChecksumMismatch { offset: u64, stored: u32, computed: u32 },
    /// The footer places the metaindex block before the start of the file.
    MetaindexBeforeFile,
    /// The footer asks for a feature that is not known here.
    FutureFeature,
    /// An older footer holds no metaindex handle.
    BadMetaindexHandle,
    /// An older footer holds no index handle.
    BadIndexHandle,
    /// A handle points outside the file.
    BlockOutOfFile { offset: u64 },
    /// The bytes given for a block are not as many as its handle says.
    BlockSizeMismatch { size: u64, actual: usize },
    /// A block does not have the checksum that its trailer states.
    BlockChecksumMismatch { offset: u64, stored: u32, computed: u32 },
    /// A trailer names a compression that does not exist.
    UnknownCompression { byte: u8 },
    /// A block is compressed in a way that cannot be read.
    UnsupportedCompression { compression: CompressionType },
    /// A compressed block does not start with its uncompressed size.
    BadSizePrefix,
    /// A compressed block claims more bytes than memory can hold.
    SizePrefixTooLarge { size: u64 },
    /// An LZ4 block holds a length that the decoder cannot add up.
    Lz4LengthTooLong,
    /// The Snappy decoder refused a block.
    SnappyFailed,
    /// The LZ4 decoder refused a block.
    Lz4Failed,
    /// The Zstd decoder refused a block.
    ZstdFailed,
    /// A block is too small for its restart count.
    BlockTooSmall,
    /// A block is too small for its restart array.
    RestartsOutOfBounds,
    /// An entry ends inside its shared-length field.
    TruncatedShared,
    /// An entry ends inside its unshared-length field.
    TruncatedUnshared,
    /// An entry ends inside its value-length field.
    TruncatedValueLength,
    /// An entry shares more bytes than the key before it has.
    SharedExceedsLastKey,
    /// An entry ends inside its key.
    TruncatedKeyDelta,
    /// An entry ends inside its value.
    TruncatedValue,
    /// An index entry ends inside the offset of its handle.
    TruncatedHandleOffset,
    /// An index entry ends inside the size of its handle.
    TruncatedHandleSize,
    /// An index entry ends inside the size difference of its handle.
    TruncatedSizeDelta,
    /// An index entry refers to a handle before the first.
    NoPreviousHandle,
    /// A handle in an index block lies beyond what can be counted.
    HandleOverflow,
    /// The metaindex block names no index block.
    IndexHandleMissing,
    /// The entries of one file are too many bytes for one merge input.
    SourceTooLarge,
}

} // verus!
