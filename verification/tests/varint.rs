use bytestream::ByteStream;
use bytestream::ByteStreamError;

fn vint_round_trip(v: i64) {
    let mut bs = ByteStream::new();
    bs.write_vint(v).unwrap();
    bs.offset = 0;
    assert_eq!(bs.read_vint().unwrap(), v, "round trip of {}", v);
    assert_eq!(bs.offset, bs.buffer.len(), "whole encoding consumed for {}", v);
}

#[test]
fn vint_round_trips_boundaries() {
    for v in [
        0,
        -1,
        1,
        i32::MIN as i64,
        i32::MAX as i64,
        63,
        64,
        -64,
        -65,
        8191,
        8192,
        -8192,
        -8193,
        0xFFFFF,
        0x100000,
        -0x100000,
        -0x100001,
        0x7FFFFFF,
        0x8000000,
        -0x8000000,
        -0x8000001,
    ] {
        vint_round_trip(v);
    }
}

#[test]
fn vint_round_trips_across_the_range() {
    let mut v: i64 = 1;
    while v < i32::MAX as i64 {
        vint_round_trip(v);
        vint_round_trip(-v);
        v *= 3;
    }
}

#[test]
fn vint_single_byte_layouts() {
    // 0 -> one clear byte; -1 -> sign flag and all six low bits
    let mut bs = ByteStream::new();
    bs.write_vint(0).unwrap();
    assert_eq!(bs.buffer, vec![0x00]);
    let mut bs = ByteStream::new();
    bs.write_vint(-1).unwrap();
    assert_eq!(bs.buffer, vec![0x7F]);
    let mut bs = ByteStream::new();
    bs.write_vint(-64).unwrap();
    assert_eq!(bs.buffer, vec![0x40]);
    let mut bs = ByteStream::new();
    bs.write_vint(63).unwrap();
    assert_eq!(bs.buffer, vec![0x3F]);
}

#[test]
fn vint_two_byte_layouts() {
    // 64 no longer fits six bits: continuation flag, then one group
    let mut bs = ByteStream::new();
    bs.write_vint(64).unwrap();
    assert_eq!(bs.buffer, vec![0x80, 0x01]);
    let mut bs = ByteStream::new();
    bs.write_vint(-65).unwrap();
    assert_eq!(bs.buffer, vec![0xFF, 0x7E]);
}

#[test]
fn vint_widths_grow_with_magnitude() {
    let widths = [
        (0i64, 1usize),
        (63, 1),
        (64, 2),
        (8191, 2),
        (8192, 3),
        (0xFFFFF, 3),
        (0x100000, 4),
        (0x7FFFFFF, 4),
        (0x8000000, 5),
        (i32::MAX as i64, 5),
        (i32::MIN as i64, 5),
    ];
    for (v, n) in widths {
        let mut bs = ByteStream::new();
        bs.write_vint(v).unwrap();
        assert_eq!(bs.buffer.len(), n, "width of {}", v);
    }
}

#[test]
fn vint_overlong_sequence_decodes_to_minus_one() {
    // the named exception: five continuation flags in a row yield the
    // sentinel -1, whatever payload bits the bytes carry
    let mut bs = ByteStream::new_from_buffer(vec![0x80, 0x80, 0x80, 0x80, 0x80, 0x11]);
    assert_eq!(bs.read_vint().unwrap(), -1);
    // all five bytes are consumed, no more
    assert_eq!(bs.offset, 5);
    let mut bs = ByteStream::new_from_buffer(vec![0xFF, 0xFF, 0xFF, 0xFF, 0xFF]);
    assert_eq!(bs.read_vint().unwrap(), -1);
    assert_eq!(bs.offset, 5);
}

#[test]
fn vint_truncated_sequence_is_rejected() {
    let mut bs = ByteStream::new_from_buffer(vec![0x80]);
    assert!(matches!(bs.read_vint(), Err(ByteStreamError::NoMoreBytes)));
    let mut bs = ByteStream::new_from_buffer(vec![]);
    assert!(matches!(bs.read_vint(), Err(ByteStreamError::NoMoreBytes)));
}
