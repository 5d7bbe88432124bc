use compactor::error::FormatError;
use compactor::format::internal_key::{split, ValueType};
use compactor::format::sst_builder::zero_out_seqno;
use compactor::fuzzer::{internal_key_of, make_internal_key, TYPE_DELETION, TYPE_VALUE};

#[test]
fn keys_are_joined_and_taken_apart() {
    let key = make_internal_key("user", 0x0102_0304, TYPE_VALUE);
    assert_eq!(key, b"user\x01\x04\x03\x02\x01\0\0\0");
    let ik = split(&key).ok().unwrap();
    assert_eq!(ik.user_key, b"user");
    assert_eq!(ik.sequence, 0x0102_0304);
    assert_eq!(ik.value_type, ValueType::Value);
}

#[test]
fn user_keys_may_be_empty_or_no_text() {
    let key = internal_key_of(&[], 1, TYPE_DELETION);
    let ik = split(&key).ok().unwrap();
    assert_eq!(ik.user_key, b"");
    assert_eq!(ik.value_type, ValueType::Deletion);
    let key = internal_key_of(&[0xff, 0], (1 << 56) - 1, 9);
    let ik = split(&key).ok().unwrap();
    assert_eq!(ik.user_key, [0xff, 0]);
    assert_eq!(ik.sequence, (1 << 56) - 1);
    assert_eq!(ik.value_type, ValueType::Other(9));
}

#[test]
fn sequence_numbers_have_56_bits() {
    assert_eq!(
        make_internal_key("k", 1 << 56, TYPE_VALUE),
        make_internal_key("k", 0, TYPE_VALUE)
    );
}

#[test]
fn short_keys_are_refused() {
    for n in 0..8 {
        assert_eq!(
            split(&vec![0; n]).err(),
            Some(FormatError::InternalKeyTooShort)
        );
    }
    assert!(split(&[0; 8]).is_ok());
}

#[test]
fn type_bytes() {
    assert_eq!(ValueType::from_byte(0x0), ValueType::Deletion);
    assert_eq!(ValueType::from_byte(0x1), ValueType::Value);
    assert_eq!(ValueType::from_byte(0x2), ValueType::Merge);
    assert_eq!(ValueType::from_byte(0x7), ValueType::SingleDeletion);
    assert_eq!(ValueType::from_byte(0xf), ValueType::RangeDeletion);
    assert_eq!(ValueType::from_byte(0x11), ValueType::BlobIndex);
    assert_eq!(ValueType::from_byte(0x3), ValueType::Other(3));
}

#[test]
fn sequence_number_is_zeroed_and_the_type_kept() {
    assert_eq!(
        zero_out_seqno(&make_internal_key("k", 77, 0x7)),
        make_internal_key("k", 0, 0x7)
    );
}
