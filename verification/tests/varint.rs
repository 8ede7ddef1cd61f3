use rustymine::error::ProtocolError;
use rustymine::stream::ByteStream;
use rustymine::varint::{ReadVarint, ToVarint, MAX_VARINT_BYTES};

fn decode(bytes: Vec<u8>) -> Result<usize, ProtocolError> {
    ByteStream::new(bytes).read_varint()
}

#[test]
fn encodes_small_values_in_one_byte() {
    assert_eq!(0usize.to_varint(), vec![0x00]);
    assert_eq!(1usize.to_varint(), vec![0x01]);
    assert_eq!(127usize.to_varint(), vec![0x7F]);
}

#[test]
fn encodes_larger_values_with_continuation_bits() {
    assert_eq!(128usize.to_varint(), vec![0x80, 0x01]);
    assert_eq!(300usize.to_varint(), vec![0xAC, 0x02]);
    assert_eq!(16383usize.to_varint(), vec![0xFF, 0x7F]);
    assert_eq!(16384usize.to_varint(), vec![0x80, 0x80, 0x01]);
    assert_eq!(2097151usize.to_varint(), vec![0xFF, 0xFF, 0x7F]);
    assert_eq!(2097152usize.to_varint(), vec![0x80, 0x80, 0x80, 0x01]);
}

#[test]
fn sets_the_high_bit_on_every_byte_but_the_last() {
    let bytes = 4_000_000_000usize.to_varint();
    let last = bytes.len() - 1;
    for (i, b) in bytes.iter().enumerate() {
        assert_eq!(b & 0x80 != 0, i < last);
    }
}

#[test]
fn round_trips_the_boundary_values() {
    for v in [0usize, 1, 127, 128, 16383, 16384, 2097151] {
        assert_eq!(decode(v.to_varint()), Ok(v));
    }
}

#[test]
fn encoding_has_the_minimal_byte_count() {
    let expected = [
        (0usize, 1usize),
        (1, 1),
        (127, 1),
        (128, 2),
        (16383, 2),
        (16384, 3),
        (2097151, 3),
        (2097152, 4),
        (268435455, 4),
        (268435456, 5),
    ];
    for (v, len) in expected {
        assert_eq!(v.to_varint().len(), len);
    }
}

#[test]
fn round_trips_every_value_below_three_bytes() {
    for v in 0usize..20000 {
        assert_eq!(decode(v.to_varint()), Ok(v));
    }
}

#[test]
fn round_trips_a_five_byte_value() {
    let v = 4_294_967_295usize;
    let bytes = v.to_varint();
    assert_eq!(bytes, vec![0xFF, 0xFF, 0xFF, 0xFF, 0x0F]);
    assert_eq!(bytes.len(), MAX_VARINT_BYTES);
    assert_eq!(decode(bytes), Ok(v));
}

#[test]
fn decoding_places_each_group_seven_bits_higher() {
    assert_eq!(decode(vec![0x80, 0x01]), Ok(128));
    assert_eq!(decode(vec![0x81, 0x01]), Ok(129));
    assert_eq!(decode(vec![0x80, 0x80, 0x01]), Ok(16384));
    assert_eq!(decode(vec![0xE5, 0x8E, 0x26]), Ok(624485));
}

#[test]
fn decoding_accepts_an_encoding_that_is_longer_than_needed() {
    assert_eq!(decode(vec![0x81, 0x00]), Ok(1));
    assert_eq!(decode(vec![0x80, 0x80, 0x00]), Ok(0));
}

#[test]
fn decoding_stops_at_the_first_byte_without_high_bit() {
    let mut stream = ByteStream::new(vec![0xAC, 0x02, 0x7F, 0x01]);
    assert_eq!(stream.read_varint(), Ok(300));
    assert_eq!(stream.remaining(), 2);
    assert_eq!(stream.read_varint(), Ok(127));
    assert_eq!(stream.read_varint(), Ok(1));
    assert_eq!(stream.read_varint(), Err(ProtocolError::Truncated));
}

#[test]
fn decoding_nothing_is_truncated() {
    assert_eq!(decode(vec![]), Err(ProtocolError::Truncated));
}

#[test]
fn decoding_without_a_last_byte_is_truncated() {
    assert_eq!(decode(vec![0x80]), Err(ProtocolError::Truncated));
    assert_eq!(decode(vec![0xFF, 0xFF, 0xFF, 0xFF]), Err(ProtocolError::Truncated));
}

#[test]
fn decoding_five_continuation_bytes_is_malformed() {
    assert_eq!(decode(vec![0x80, 0x80, 0x80, 0x80, 0x80]), Err(ProtocolError::Malformed));
    assert_eq!(
        decode(vec![0xFF, 0xFF, 0xFF, 0xFF, 0xFF, 0x01]),
        Err(ProtocolError::Malformed)
    );
}

#[test]
fn a_value_of_six_bytes_does_not_come_back() {
    if usize::BITS >= 64 {
        let bytes = (1usize << 35).to_varint();
        assert_eq!(bytes.len(), 6);
        assert_eq!(decode(bytes), Err(ProtocolError::Malformed));
    }
}

#[test]
fn a_failed_decoding_consumes_nothing() {
    let mut stream = ByteStream::new(vec![0x80, 0x80]);
    assert_eq!(stream.read_varint(), Err(ProtocolError::Truncated));
    assert_eq!(stream.remaining(), 2);
    let mut stream = ByteStream::new(vec![0x80, 0x80, 0x80, 0x80, 0x80, 0x00]);
    assert_eq!(stream.read_varint(), Err(ProtocolError::Malformed));
    assert_eq!(stream.remaining(), 6);
}
