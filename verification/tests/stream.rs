use bytestream::ByteStream;
use bytestream::ByteStreamError;
use bytestream::LogicLong;

#[test]
fn byte_round_trip() {
    let mut bs = ByteStream::new();
    bs.write_byte(0).unwrap();
    bs.write_byte(255).unwrap();
    bs.offset = 0;
    assert_eq!(bs.read_byte().unwrap(), 0);
    assert_eq!(bs.read_byte().unwrap(), 255);
    assert!(matches!(bs.read_byte(), Err(ByteStreamError::NoMoreBytes)));
}

#[test]
fn bool_round_trip() {
    let mut bs = ByteStream::new();
    bs.write_bool(1, true).unwrap();
    bs.write_bool(7, true).unwrap();
    bs.write_bool(9, false).unwrap();
    bs.offset = 0;
    assert_eq!(bs.read_bool().unwrap(), (true, 1));
    // the raw byte itself carries information beside the boolean
    assert_eq!(bs.read_bool().unwrap(), (true, 7));
    assert_eq!(bs.read_bool().unwrap(), (false, 0));
}

#[test]
fn bytes_round_trip() {
    let mut bs = ByteStream::new();
    bs.write_bytes(&[1, 2, 3, 4, 5]).unwrap();
    bs.offset = 0;
    assert_eq!(bs.read_bytes(5).unwrap(), vec![1, 2, 3, 4, 5]);
    bs.offset = 0;
    assert!(matches!(bs.read_bytes(6), Err(ByteStreamError::NoMoreBytes)));
}

#[test]
fn int8_boundaries_round_trip() {
    for v in [i8::MIN, -1, 0, 1, i8::MAX] {
        let mut bs = ByteStream::new();
        bs.write_int8(v).unwrap();
        bs.offset = 0;
        assert_eq!(bs.read_int8().unwrap(), v);
    }
    let mut bs = ByteStream::new();
    bs.write_uint8(200).unwrap();
    bs.offset = 0;
    assert_eq!(bs.read_uint8().unwrap(), 200);
}

#[test]
fn int16_boundaries_round_trip() {
    for v in [i16::MIN, -1, 0, 1, i16::MAX] {
        let mut bs = ByteStream::new();
        bs.write_int16(v).unwrap();
        bs.offset = 0;
        assert_eq!(bs.read_int16().unwrap(), v);
    }
    for v in [0u16, 1, 0x1234, u16::MAX] {
        let mut bs = ByteStream::new();
        bs.write_uint16(v).unwrap();
        bs.offset = 0;
        assert_eq!(bs.read_uint16().unwrap(), v);
    }
}

#[test]
fn int16_is_big_endian_on_the_wire() {
    let mut bs = ByteStream::new();
    bs.write_uint16(0x1234).unwrap();
    assert_eq!(bs.buffer, vec![0x12, 0x34]);
}

#[test]
fn int24_boundaries_round_trip() {
    for v in [-0x800000i32, -1, 0, 1, 0x7FFFFF] {
        let mut bs = ByteStream::new();
        bs.write_int24(v).unwrap();
        bs.offset = 0;
        assert_eq!(bs.read_int24().unwrap(), v);
    }
    for v in [0u32, 1, 0xABCDEF, 0xFFFFFF] {
        let mut bs = ByteStream::new();
        bs.write_uint24(v).unwrap();
        bs.offset = 0;
        assert_eq!(bs.read_uint24().unwrap(), v);
        assert_eq!(bs.offset, 3);
    }
}

#[test]
fn int32_boundaries_round_trip() {
    for v in [i32::MIN, -1, 0, 1, i32::MAX] {
        let mut bs = ByteStream::new();
        bs.write_int32(v).unwrap();
        bs.offset = 0;
        assert_eq!(bs.read_int32().unwrap(), v);
    }
    for v in [0u32, 1, 0xDEADBEEF, u32::MAX] {
        let mut bs = ByteStream::new();
        bs.write_uint32(v).unwrap();
        bs.offset = 0;
        assert_eq!(bs.read_uint32().unwrap(), v);
    }
}

#[test]
fn int32_le_round_trip_and_layout() {
    for v in [i32::MIN, -1, 0, 1, i32::MAX, 0x12345678] {
        let mut bs = ByteStream::new();
        bs.write_int32_le(v).unwrap();
        bs.offset = 0;
        assert_eq!(bs.read_int32_le().unwrap(), v);
    }
    let mut bs = ByteStream::new();
    bs.write_int32_le(0x12345678).unwrap();
    assert_eq!(bs.buffer, vec![0x78, 0x56, 0x34, 0x12]);
}

#[test]
fn int64_boundaries_round_trip() {
    for v in [i64::MIN, -1, 0, 1, i64::MAX] {
        let mut bs = ByteStream::new();
        bs.write_int64(v).unwrap();
        bs.offset = 0;
        assert_eq!(bs.read_int64().unwrap(), v);
    }
    for v in [0u64, 1, u64::MAX] {
        let mut bs = ByteStream::new();
        bs.write_uint64(v).unwrap();
        bs.offset = 0;
        assert_eq!(bs.read_uint64().unwrap(), v);
    }
}

#[test]
fn long_aliases_match_the_64_bit_forms() {
    let mut bs = ByteStream::new();
    bs.write_long(-2).unwrap();
    bs.write_ulong(3).unwrap();
    bs.write_longlong(-4).unwrap();
    bs.write_ulonglong(5).unwrap();
    bs.offset = 0;
    assert_eq!(bs.read_long().unwrap(), -2);
    assert_eq!(bs.read_ulong().unwrap(), 3);
    assert_eq!(bs.read_longlong().unwrap(), -4);
    assert_eq!(bs.read_ulonglong().unwrap(), 5);
}

#[test]
fn string_round_trips() {
    for s in ["", "a", "hello", "héllo wörld", "\u{1F600} multi\u{306F}byte"] {
        let mut bs = ByteStream::new();
        bs.write_string(s.to_string()).unwrap();
        bs.offset = 0;
        assert_eq!(bs.read_string().unwrap(), s);
    }
}

#[test]
fn string_reference_round_trips() {
    for s in ["", "a", "reference form"] {
        let mut bs = ByteStream::new();
        bs.write_string_reference(s.to_string()).unwrap();
        bs.offset = 0;
        assert_eq!(bs.read_string_reference().unwrap(), s);
    }
}

#[test]
fn empty_string_forms_differ_on_the_wire() {
    let mut plain = ByteStream::new();
    plain.write_string(String::new()).unwrap();
    assert_eq!(plain.buffer, vec![0xFF, 0xFF, 0xFF, 0xFF]);
    let mut reference = ByteStream::new();
    reference.write_string_reference(String::new()).unwrap();
    assert_eq!(reference.buffer, vec![0, 0, 0, 0]);
    // both are read back as the empty string
    plain.offset = 0;
    reference.offset = 0;
    assert_eq!(plain.read_string().unwrap(), "");
    assert_eq!(reference.read_string().unwrap(), "");
}

#[test]
fn string_length_below_minus_one_is_rejected() {
    let mut bs = ByteStream::new_from_buffer(vec![0xFF, 0xFF, 0xFF, 0xFE]);
    match bs.read_string() {
        Err(ByteStreamError::InvalidStringLength(_)) => {}
        other => panic!("expected InvalidStringLength, got {:?}", other),
    }
}

#[test]
fn string_with_invalid_utf8_is_rejected() {
    let mut bs = ByteStream::new_from_buffer(vec![0, 0, 0, 2, 0xC3, 0x28]);
    match bs.read_string() {
        Err(ByteStreamError::InvalidString(_)) => {}
        other => panic!("expected InvalidString, got {:?}", other),
    }
}

#[test]
fn string_truncated_payload_is_rejected() {
    let mut bs = ByteStream::new_from_buffer(vec![0, 0, 0, 9, b'h', b'i']);
    assert!(matches!(bs.read_string(), Err(ByteStreamError::NoMoreBytes)));
}

#[test]
fn read_string_size_reads_exactly() {
    let mut bs = ByteStream::new_from_buffer(b"abcdef".to_vec());
    assert_eq!(bs.read_string_size(3).unwrap(), "abc");
    assert_eq!(bs.read_string_size(2).unwrap(), "de");
}

#[test]
fn write_string_size_writes_a_prefix_of_the_bytes() {
    let mut bs = ByteStream::new();
    bs.write_string_size(3, "abcdef".to_string()).unwrap();
    assert_eq!(bs.buffer, vec![0, 0, 0, 3, b'a', b'b', b'c']);
    let mut bs2 = ByteStream::new();
    bs2.write_string_size_reference(2, "xyz".to_string()).unwrap();
    assert_eq!(bs2.buffer, vec![0, 0, 0, 2, b'x', b'y']);
    // a size past the end of the string is rejected
    let mut bs3 = ByteStream::new();
    assert!(matches!(
        bs3.write_string_size(9, "ab".to_string()),
        Err(ByteStreamError::InvalidStringLength(9))
    ));
}

#[test]
fn compressed_string_round_trips() {
    let large = "wire protocol ".repeat(5000);
    for s in ["", "a", "compressed content", large.as_str()] {
        let mut bs = ByteStream::new();
        bs.write_compressed_string(s.to_string()).unwrap();
        bs.offset = 0;
        assert_eq!(bs.read_compressed_string().unwrap(), s);
    }
}

#[test]
fn compressed_string_frame_layout() {
    let mut bs = ByteStream::new();
    bs.write_compressed_string("zz".to_string()).unwrap();
    // 4-byte big-endian compressed length
    let comp_len = u32::from_be_bytes([bs.buffer[0], bs.buffer[1], bs.buffer[2], bs.buffer[3]]) as usize;
    assert_eq!(bs.buffer.len(), 8 + comp_len);
    // 4-byte little-endian uncompressed length
    let un_len = u32::from_le_bytes([bs.buffer[4], bs.buffer[5], bs.buffer[6], bs.buffer[7]]);
    assert_eq!(un_len, 2);
}

#[test]
fn compressed_garbage_is_rejected() {
    let mut bs = ByteStream::new_from_buffer(vec![0, 0, 0, 3, 3, 0, 0, 0, 9, 9, 9]);
    match bs.read_compressed_string() {
        Err(ByteStreamError::IoError(_)) => {}
        other => panic!("expected IoError, got {:?}", other),
    }
}

#[test]
fn compressed_negative_length_is_rejected() {
    let mut bs = ByteStream::new_from_buffer(vec![0xFF, 0xFF, 0xFF, 0xFF, 0, 0, 0, 0]);
    assert!(matches!(bs.read_compressed_string(), Err(ByteStreamError::NoMoreBytes)));
}

#[test]
fn logic_long_round_trips_through_the_stream() {
    let ll = LogicLong::new(7, 0xCAFEBABE);
    let mut bs = ByteStream::new();
    bs.write_logic_long(ll.clone()).unwrap();
    assert_eq!(bs.buffer.len(), 8);
    bs.offset = 0;
    let back = bs.read_logic_long().unwrap();
    assert_eq!(back.high, 7);
    assert_eq!(back.low, 0xCAFEBABE);
    assert_eq!(back.tag, ll.tag);
}

#[test]
fn logic_long_wire_layout_is_low_then_high() {
    let ll = LogicLong::new(1, 2);
    let mut bs = ByteStream::new();
    bs.write_logic_long(ll).unwrap();
    assert_eq!(bs.buffer, vec![0, 0, 0, 2, 0, 0, 0, 1]);
}

#[test]
fn reads_past_the_end_fail_and_leave_the_buffer() {
    let mut bs = ByteStream::new_from_buffer(vec![1, 2]);
    assert!(matches!(bs.read_uint32(), Err(ByteStreamError::NoMoreBytes)));
    assert_eq!(bs.offset, 0);
    assert_eq!(bs.read_uint16().unwrap(), 0x0102);
}

#[test]
fn writing_inside_the_buffer_overwrites() {
    let mut bs = ByteStream::new_from_buffer(vec![9, 9, 9, 9]);
    bs.write_byte(1).unwrap();
    bs.write_byte(2).unwrap();
    assert_eq!(bs.buffer, vec![1, 2, 9, 9]);
    assert_eq!(bs.offset, 2);
}
