use rustymine::error::ProtocolError;
use rustymine::stream::ByteStream;

#[test]
fn a_new_stream_has_all_bytes_unread_and_nothing_written() {
    let stream = ByteStream::new(vec![1, 2, 3]);
    assert_eq!(stream.remaining(), 3);
    assert!(stream.output().is_empty());
}

#[test]
fn read_byte_takes_bytes_in_order() {
    let mut stream = ByteStream::new(vec![7, 8]);
    assert_eq!(stream.read_byte(), Ok(7));
    assert_eq!(stream.read_byte(), Ok(8));
    assert_eq!(stream.remaining(), 0);
}

#[test]
fn read_byte_at_the_end_is_truncated() {
    let mut stream = ByteStream::new(vec![]);
    assert_eq!(stream.read_byte(), Err(ProtocolError::Truncated));
    assert_eq!(stream.remaining(), 0);
}

#[test]
fn read_exact_takes_the_next_bytes() {
    let mut stream = ByteStream::new(vec![1, 2, 3, 4, 5]);
    assert_eq!(stream.read_exact(2), Ok(vec![1, 2]));
    assert_eq!(stream.read_exact(0), Ok(vec![]));
    assert_eq!(stream.read_exact(3), Ok(vec![3, 4, 5]));
    assert_eq!(stream.remaining(), 0);
}

#[test]
fn read_exact_beyond_the_end_is_truncated_and_consumes_nothing() {
    let mut stream = ByteStream::new(vec![1, 2, 3]);
    assert_eq!(stream.read_exact(4), Err(ProtocolError::Truncated));
    assert_eq!(stream.remaining(), 3);
    assert_eq!(stream.read_exact(usize::MAX), Err(ProtocolError::Truncated));
    assert_eq!(stream.read_exact(3), Ok(vec![1, 2, 3]));
}

#[test]
fn write_appends_in_order_and_leaves_the_input_alone() {
    let mut stream = ByteStream::new(vec![9]);
    stream.write(&[1, 2]);
    stream.write(&[]);
    stream.write(&[3]);
    assert_eq!(stream.output(), &vec![1, 2, 3]);
    assert_eq!(stream.remaining(), 1);
}
