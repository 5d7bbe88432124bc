//! Internal keys: a user key followed by eight bytes that pack a 56-bit
//! sequence number and an 8-bit entry type, least significant byte first.

use crate::error::FormatError;
use vstd::bytes::*;
use vstd::prelude::*;
use vstd::slice::slice_subrange;

verus! {

/// What an entry does to its user key.
#[derive(Debug, Clone, Copy, PartialEq, Eq, Structural)]
pub enum ValueType {
    Deletion,
    Value,
    Merge,
    SingleDeletion,
    RangeDeletion,
    BlobIndex,
    Other(u8),
}

/// The entry type that a type byte stands for.
pub open spec fn value_type_of(byte: u8) -> ValueType {
    if byte == 0x0 {
        ValueType::Deletion
    } else if byte == 0x1 {
        ValueType::Value
    } else if byte == 0x2 {
        ValueType::Merge
    } else if byte == 0x7 {
        ValueType::SingleDeletion
    } else if byte == 0xF {
        ValueType::RangeDeletion
    } else if byte == 0x11 {
        ValueType::BlobIndex
    } else {
        ValueType::Other(byte)
    }
}

impl ValueType {
    /// Whether the entry only hides what is older.
    pub open spec fn is_tombstone(self) -> bool {
        self == ValueType::Deletion || self == ValueType::SingleDeletion
    }

    pub fn from_byte(b: u8) -> (r: Self)
        ensures
            r == value_type_of(b),
    {
        match b {
            0x0 => ValueType::Deletion,
            0x1 => ValueType::Value,
            0x2 => ValueType::Merge,
            0x7 => ValueType::SingleDeletion,
            0xF => ValueType::RangeDeletion,
            0x11 => ValueType::BlobIndex,
            other => ValueType::Other(other),
        }
    }
}

/// A decoded internal key that borrows its user key.
pub struct InternalKey<'a> {
    pub user_key: &'a [u8],
    pub sequence: u64,
    pub value_type: ValueType,
}

/// The parts of an internal key.
#[verifier::ext_equal]
pub struct KeyParts {
    pub user_key: Seq<u8>,
    pub sequence: u64,
    pub value_type: ValueType,
}

impl<'a> View for InternalKey<'a> {
    type V = KeyParts;

    open spec fn view(&self) -> KeyParts {
        KeyParts {
            user_key: self.user_key@,
            sequence: self.sequence,
            value_type: self.value_type,
        }
    }
}

/// Length of the packed suffix.
pub const NUM_INTERNAL_BYTES: usize = 8;

/// Whether `key` is long enough to be an internal key.
pub open spec fn is_internal_key(key: Seq<u8>) -> bool {
    key.len() >= NUM_INTERNAL_BYTES
}

/// The user key of an internal key.
pub open spec fn user_part(key: Seq<u8>) -> Seq<u8> {
    key.take(key.len() - NUM_INTERNAL_BYTES)
}

/// The packed sequence number and type of an internal key.
pub open spec fn packed_part(key: Seq<u8>) -> u64 {
    spec_u64_from_le_bytes(key.skip(key.len() - NUM_INTERNAL_BYTES))
}

pub open spec fn sequence_part(key: Seq<u8>) -> u64 {
    packed_part(key) / 256
}

pub open spec fn type_byte_part(key: Seq<u8>) -> u8 {
    (packed_part(key) % 256) as u8
}

/// The parts of `key`.
pub open spec fn key_parts(key: Seq<u8>) -> KeyParts {
    KeyParts {
        user_key: user_part(key),
        sequence: sequence_part(key),
        value_type: value_type_of(type_byte_part(key)),
    }
}

/// The internal key made of `user_key` and a packed suffix.
pub open spec fn join_key(user_key: Seq<u8>, packed: u64) -> Seq<u8> {
    user_key + spec_u64_to_le_bytes(packed)
}

/// Joining and taking apart are inverse to each other.
pub proof fn lemma_join_key(user_key: Seq<u8>, packed: u64)
    ensures
        is_internal_key(join_key(user_key, packed)),
        user_part(join_key(user_key, packed)) == user_key,
        packed_part(join_key(user_key, packed)) == packed,
{
    lemma_auto_spec_u64_to_from_le_bytes();
    let key = join_key(user_key, packed);
    assert(user_part(key) =~= user_key);
    assert(key.skip(key.len() - NUM_INTERNAL_BYTES) =~= spec_u64_to_le_bytes(packed));
}

/// An internal key is the join of its parts.
pub proof fn lemma_split_key(key: Seq<u8>)
    requires
        is_internal_key(key),
    ensures
        join_key(user_part(key), packed_part(key)) == key,
{
    lemma_auto_spec_u64_to_from_le_bytes();
    let suffix = key.skip(key.len() - NUM_INTERNAL_BYTES);
    assert(spec_u64_to_le_bytes(spec_u64_from_le_bytes(suffix)) == suffix);
    assert(user_part(key) + suffix =~= key);
}

/// Takes an internal key apart. Fails exactly when it is too short.
pub fn split(internal_key: &[u8]) -> (r: Result<InternalKey<'_>, FormatError>)
    ensures
        match r {
            Ok(ik) => is_internal_key(internal_key@) && ik@ == key_parts(internal_key@),
            Err(e) => !is_internal_key(internal_key@) && e == FormatError::InternalKeyTooShort,
        },
{
    if internal_key.len() < NUM_INTERNAL_BYTES {
        return Err(FormatError::InternalKeyTooShort);
    }
    let at: usize = internal_key.len() - NUM_INTERNAL_BYTES;
    let user_key = slice_subrange(internal_key, 0, at);
    let suffix = slice_subrange(internal_key, at, internal_key.len());
    let packed: u64 = u64_from_le_bytes(suffix);
    proof {
        assert(packed >> 8 == packed / 256) by (bit_vector);
        assert(packed & 0xff == packed % 256) by (bit_vector);
        assert(suffix@ =~= internal_key@.skip(at as int));
        assert(user_key@ =~= internal_key@.take(at as int));
    }
    let sequence: u64 = packed >> 8;
    let value_type = ValueType::from_byte((packed & 0xff) as u8);
    Ok(InternalKey { user_key, sequence, value_type })
}

} // verus!
