use bytestream::ByteStream;
use bytestream::ByteStreamError;
use bytestream::LogicLong;
use bytestream::message::Command;
use bytestream::message::Handshake;
use bytestream::message::Message;
use bytestream::message::decode_all;
use bytestream::message::encode_all;

#[test]
fn struct_fields_encode_in_declaration_order() {
    let hs = Handshake { protocol: 0x01020304, key_version: 0x0A0B0C0D, device: 0x7F };
    let mut bs = ByteStream::new();
    hs.encode(&mut bs).unwrap();
    assert_eq!(
        bs.buffer,
        vec![0x01, 0x02, 0x03, 0x04, 0x0A, 0x0B, 0x0C, 0x0D, 0x7F]
    );
    bs.offset = 0;
    assert_eq!(Handshake::decode(&mut bs).unwrap(), hs);
}

#[test]
fn enum_discriminant_two_selects_the_third_variant() {
    // one byte of discriminant, then that variant's fields in order
    let mut bs = ByteStream::new_from_buffer(vec![0x02, 0x00, 0x00, 0x00, 0x05, 0x09]);
    let cmd = Command::decode(&mut bs).unwrap();
    assert_eq!(cmd, Command::Join { session: 5, slot: 9 });
}

#[test]
fn enum_unknown_discriminant_is_rejected() {
    let mut bs = ByteStream::new_from_buffer(vec![0x05, 0, 0, 0, 0]);
    match Command::decode(&mut bs) {
        Err(ByteStreamError::UnknownDiscriminant(5)) => {}
        other => panic!("expected UnknownDiscriminant, got {:?}", other),
    }
}

#[test]
fn enum_variants_round_trip() {
    for cmd in [
        Command::KeepAlive,
        Command::SetLatency { millis: 250 },
        Command::Join { session: 0xFFFFFFFF, slot: 0 },
    ] {
        let mut bs = ByteStream::new();
        cmd.encode(&mut bs).unwrap();
        bs.offset = 0;
        assert_eq!(Command::decode(&mut bs).unwrap(), cmd);
        assert_eq!(bs.offset, bs.buffer.len());
    }
}

#[test]
fn primitives_satisfy_the_contract() {
    let mut bs = ByteStream::new();
    0xAAu8.encode(&mut bs).unwrap();
    0xDEADBEEFu32.encode(&mut bs).unwrap();
    (-7i32).encode(&mut bs).unwrap();
    0x1122334455667788u64.encode(&mut bs).unwrap();
    bs.offset = 0;
    assert_eq!(u8::decode(&mut bs).unwrap(), 0xAA);
    assert_eq!(u32::decode(&mut bs).unwrap(), 0xDEADBEEF);
    assert_eq!(i32::decode(&mut bs).unwrap(), -7);
    assert_eq!(u64::decode(&mut bs).unwrap(), 0x1122334455667788);
}

#[test]
fn logic_long_satisfies_the_contract() {
    let ll = LogicLong::new(3, 77);
    let mut bs = ByteStream::new();
    ll.encode(&mut bs).unwrap();
    assert_eq!(bs.buffer, vec![0, 0, 0, 77, 0, 0, 0, 3]);
    bs.offset = 0;
    let back = LogicLong::decode(&mut bs).unwrap();
    assert_eq!(back.high, 3);
    assert_eq!(back.low, 77);
}

#[test]
fn runs_of_messages_concatenate_in_order() {
    let items: Vec<u32> = vec![1, 2, 3];
    let mut bs = ByteStream::new();
    encode_all(&items, &mut bs).unwrap();
    assert_eq!(bs.buffer, vec![0, 0, 0, 1, 0, 0, 0, 2, 0, 0, 0, 3]);
    bs.offset = 0;
    let back: Vec<u32> = decode_all(&mut bs, 3).unwrap();
    assert_eq!(back, items);
}

#[test]
fn truncated_run_fails_decode() {
    let mut bs = ByteStream::new_from_buffer(vec![0, 0, 0, 1, 0, 0]);
    let r: Result<Vec<u32>, ByteStreamError> = decode_all(&mut bs, 2);
    assert!(matches!(r, Err(ByteStreamError::NoMoreBytes)));
}
