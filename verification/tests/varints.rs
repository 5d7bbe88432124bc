use compactor::format::varint::{get_varint32, get_varint64, put_varint32, put_varint64};

fn encoded(v: u64) -> Vec<u8> {
    let mut out = Vec::new();
    put_varint64(&mut out, v);
    out
}

#[test]
fn encodings() {
    assert_eq!(encoded(0), [0]);
    assert_eq!(encoded(127), [0x7f]);
    assert_eq!(encoded(128), [0x80, 0x01]);
    assert_eq!(encoded(300), [0xac, 0x02]);
    assert_eq!(
        encoded(u64::MAX),
        [0xff, 0xff, 0xff, 0xff, 0xff, 0xff, 0xff, 0xff, 0xff, 0x01]
    );
    let mut out = vec![9];
    put_varint32(&mut out, u32::MAX);
    assert_eq!(out, [9, 0xff, 0xff, 0xff, 0xff, 0x0f]);
}

#[test]
fn what_was_put_is_read_back() {
    for v in [0, 1, 127, 128, 16383, 16384, 1 << 32, u64::MAX - 1, u64::MAX] {
        let mut bytes = vec![0xff];
        put_varint64(&mut bytes, v);
        let end = bytes.len();
        bytes.push(0x80);
        let mut pos = 1;
        assert_eq!(get_varint64(&bytes, &mut pos), Some(v));
        assert_eq!(pos, end);
    }
}

#[test]
fn unfinished_numbers_are_refused() {
    for bytes in [&[][..], &[0x80], &[0xff, 0xff]] {
        let mut pos = 0;
        assert_eq!(get_varint64(bytes, &mut pos), None);
        assert_eq!(pos, 0);
        assert_eq!(get_varint32(bytes, &mut pos), None);
        assert_eq!(pos, 0);
    }
    let mut pos = 5;
    assert_eq!(get_varint64(&[1], &mut pos), None);
    assert_eq!(pos, 5);
}

#[test]
fn numbers_of_more_than_ten_bytes_are_refused() {
    let mut pos = 0;
    assert_eq!(get_varint64(&[0x80; 11], &mut pos), None);
}

#[test]
fn small_numbers_have_to_fit_in_32_bits() {
    let mut bytes = Vec::new();
    put_varint64(&mut bytes, u32::MAX as u64);
    let mut pos = 0;
    assert_eq!(get_varint32(&bytes, &mut pos), Some(u32::MAX));
    let mut bytes = Vec::new();
    put_varint64(&mut bytes, u32::MAX as u64 + 1);
    let mut pos = 0;
    assert_eq!(get_varint32(&bytes, &mut pos), None);
    assert_eq!(pos, bytes.len());
}
