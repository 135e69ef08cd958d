use cliff::parsing::{MsgPackParser, PollNext, ReadEvent};
use cliff::Value;

#[test]
fn nine_byte_integer_arrives_one_byte_at_a_time() {
    // The 9-byte encoding of a 64-bit integer: tag plus eight payload
    // bytes. Until the ninth byte arrives, each feed buffers and asks
    // for more; the ninth yields the integer.
    let encoded = cliff::parsing::encode_value(&Value::UInt(0x0102030405060708));
    assert_eq!(encoded.len(), 9);

    let mut parser = MsgPackParser::new();
    for byte in encoded.iter().take(8) {
        assert_eq!(
            parser.poll_next(ReadEvent::Data(vec![*byte])),
            PollNext::More
        );
    }
    assert_eq!(
        parser.poll_next(ReadEvent::Data(vec![encoded[8]])),
        PollNext::Ready(Value::UInt(0x0102030405060708))
    );
}

#[test]
fn fragmentation_does_not_change_the_values() {
    let mut stream = Vec::new();
    stream.extend(cliff::parsing::encode_value(&Value::Str(b"first".to_vec())));
    stream.extend(cliff::parsing::encode_value(&Value::UInt(300)));
    stream.extend(cliff::parsing::encode_value(&Value::Array(vec![
        Value::Nil,
        Value::UInt(9),
    ])));

    let whole = drain_with_split(&stream, stream.len());
    for split in 0..stream.len() {
        assert_eq!(drain_with_split(&stream, split), whole, "split at {}", split);
    }
    assert_eq!(whole.len(), 3);
}

fn drain_with_split(stream: &[u8], split: usize) -> Vec<Value> {
    let mut parser = MsgPackParser::new();
    let mut values = Vec::new();
    for chunk in [&stream[..split], &stream[split..]] {
        match parser.poll_next(ReadEvent::Data(chunk.to_vec())) {
            PollNext::Ready(value) => values.push(value),
            PollNext::More => {}
            other => panic!("unexpected outcome {:?}", other),
        }
        loop {
            match parser.read_next() {
                Ok(Some(value)) => values.push(value),
                Ok(None) => break,
                Err(e) => panic!("decode error {:?}", e),
            }
        }
    }
    values
}

#[test]
fn zero_length_read_ends_the_stream_permanently() {
    let mut parser = MsgPackParser::new();
    // Leave a partial value in the buffer, then observe the source close.
    assert_eq!(
        parser.poll_next(ReadEvent::Data(vec![0xcd, 0x01])),
        PollNext::More
    );
    assert_eq!(parser.poll_next(ReadEvent::Closed), PollNext::End);
    // The end is permanent: fresh data no longer revives the stream.
    assert_eq!(
        parser.poll_next(ReadEvent::Data(vec![0x05])),
        PollNext::End
    );
    assert_eq!(parser.poll_next(ReadEvent::Pending), PollNext::End);
    assert_eq!(parser.read_next(), Ok(None));
}

#[test]
fn pending_read_suspends_without_losing_bytes() {
    let mut parser = MsgPackParser::new();
    assert_eq!(
        parser.poll_next(ReadEvent::Data(vec![0xa2, b'h'])),
        PollNext::More
    );
    assert_eq!(parser.poll_next(ReadEvent::Pending), PollNext::Pending);
    assert_eq!(
        parser.poll_next(ReadEvent::Data(vec![b'i'])),
        PollNext::Ready(Value::Str(b"hi".to_vec()))
    );
}

#[test]
fn buffered_values_come_out_before_reading_again() {
    let mut bytes = Vec::new();
    bytes.extend(cliff::parsing::encode_value(&Value::UInt(1)));
    bytes.extend(cliff::parsing::encode_value(&Value::UInt(2)));
    let mut parser = MsgPackParser::new();
    assert_eq!(
        parser.poll_next(ReadEvent::Data(bytes)),
        PollNext::Ready(Value::UInt(1))
    );
    // The second value is already buffered: no further read needed.
    assert_eq!(parser.read_next(), Ok(Some(Value::UInt(2))));
    assert_eq!(parser.read_next(), Ok(None));
}

#[test]
fn invalid_bytes_end_the_stream() {
    let mut parser = MsgPackParser::new();
    match parser.poll_next(ReadEvent::Data(vec![0xc1])) {
        PollNext::Failed(_) => {}
        other => panic!("expected a decode failure, got {:?}", other),
    }
    // A decode error terminates this connection's stream for good.
    assert_eq!(
        parser.poll_next(ReadEvent::Data(vec![0x01])),
        PollNext::End
    );
}

#[test]
fn parse_next_splits_value_and_leftover() {
    let parser = MsgPackParser::new();
    let mut bytes = cliff::parsing::encode_value(&Value::UInt(300));
    bytes.push(0x7f);
    let (value, rest) = parser.parse_next(&bytes).unwrap();
    assert_eq!(value, Some(Value::UInt(300)));
    assert_eq!(rest, vec![0x7f]);

    let (none, untouched) = parser.parse_next(&[0xcd, 0x01]).unwrap();
    assert_eq!(none, None);
    assert_eq!(untouched, vec![0xcd, 0x01]);
}
