use bytes::{Bytes, BytesMut};
use sqelf::metrics::Metrics;
use sqelf::server::tcp::Decode;
use sqelf::server::Received;

fn echo(frame: Bytes) -> Result<Option<Vec<u8>>, String> {
    Ok(Some(frame.to_vec()))
}

fn complete(yielded: Result<Option<Received<Vec<u8>>>, String>) -> Vec<u8> {
    match yielded {
        Ok(Some(Received::Complete(msg))) => msg,
        other => panic!("expected a complete message, got {:?}", other),
    }
}

#[test]
fn two_records_in_one_write_come_out_in_order() {
    let mut metrics = Metrics::new();
    let mut decode = Decode::new(262144, echo);
    let mut src = BytesMut::from(&b"HELLO\0WORLD\0"[..]);

    assert_eq!(complete(decode.decode(&mut src, &mut metrics)), b"HELLO".to_vec());
    assert_eq!(&src[..], b"WORLD\0");
    assert_eq!(complete(decode.decode(&mut src, &mut metrics)), b"WORLD".to_vec());
    assert!(src.is_empty());
    assert!(matches!(decode.decode(&mut src, &mut metrics), Ok(None)));
    assert_eq!(metrics, Metrics::new());
}

#[test]
fn a_split_record_waits_for_its_delimiter() {
    let mut metrics = Metrics::new();
    let mut decode = Decode::new(262144, echo);
    let mut src = BytesMut::from(&b"HEL"[..]);

    assert!(matches!(decode.decode(&mut src, &mut metrics), Ok(None)));
    assert_eq!(&src[..], b"HEL");

    src.extend_from_slice(b"LO\0");
    assert_eq!(complete(decode.decode(&mut src, &mut metrics)), b"HELLO".to_vec());
    assert!(src.is_empty());
    assert_eq!(metrics.tcp_msg_overflow, 0);
}

#[test]
fn a_record_fed_byte_by_byte_comes_out_whole() {
    let mut metrics = Metrics::new();
    let mut decode = Decode::new(16, echo);
    let mut src = BytesMut::new();

    for byte in b"HELLO" {
        src.extend_from_slice(&[*byte]);
        assert!(matches!(decode.decode(&mut src, &mut metrics), Ok(None)));
    }
    src.extend_from_slice(b"\0");
    assert_eq!(complete(decode.decode(&mut src, &mut metrics)), b"HELLO".to_vec());
}

#[test]
fn an_oversize_record_is_dropped_and_the_next_is_read() {
    let mut metrics = Metrics::new();
    let mut decode = Decode::new(4, echo);
    let mut src = BytesMut::from(&b"TOOBIG\0OK\0"[..]);

    assert_eq!(complete(decode.decode(&mut src, &mut metrics)), b"OK".to_vec());
    assert!(src.is_empty());
    assert_eq!(metrics.tcp_msg_overflow, 1);
    assert!(matches!(decode.decode(&mut src, &mut metrics), Ok(None)));
    assert_eq!(metrics.tcp_msg_overflow, 1);
}

#[test]
fn an_oversize_record_without_delimiter_is_dropped_at_the_end() {
    let mut metrics = Metrics::new();
    let mut decode = Decode::new(4, echo);
    let mut src = BytesMut::from(&b"TOOBIG"[..]);

    assert!(matches!(decode.decode(&mut src, &mut metrics), Ok(None)));
    assert!(src.is_empty());
    assert_eq!(metrics.tcp_msg_overflow, 1);

    assert!(matches!(decode.decode_eof(&mut src, &mut metrics), Ok(None)));
    assert_eq!(metrics.tcp_msg_overflow, 1);
}

#[test]
fn an_oversize_record_is_counted_once_however_it_arrives() {
    let mut metrics = Metrics::new();
    let mut decode = Decode::new(4, echo);
    let mut src = BytesMut::new();

    for chunk in [&b"TOO"[..], &b"BIGGE"[..], &b"R AND BIGGER"[..], &b"\0O"[..], &b"K\0"[..]] {
        src.extend_from_slice(chunk);
        match decode.decode(&mut src, &mut metrics) {
            Ok(None) => {}
            yielded => {
                assert_eq!(complete(yielded), b"OK".to_vec());
            }
        }
    }
    assert_eq!(metrics.tcp_msg_overflow, 1);
    assert!(src.is_empty());
}

#[test]
fn each_oversize_record_is_counted() {
    let mut metrics = Metrics::new();
    let mut decode = Decode::new(2, echo);
    let mut src = BytesMut::from(&b"AAA\0BBBB\0CC\0DDD"[..]);

    assert_eq!(complete(decode.decode(&mut src, &mut metrics)), b"CC".to_vec());
    assert_eq!(metrics.tcp_msg_overflow, 2);
    assert_eq!(&src[..], b"DDD");

    assert!(matches!(decode.decode(&mut src, &mut metrics), Ok(None)));
    assert_eq!(metrics.tcp_msg_overflow, 3);
    assert!(src.is_empty());
}

#[test]
fn a_record_of_exactly_the_limit_is_accepted() {
    let mut metrics = Metrics::new();
    let mut decode = Decode::new(4, echo);
    let mut src = BytesMut::from(&b"FOUR\0FIVES\0"[..]);

    assert_eq!(complete(decode.decode(&mut src, &mut metrics)), b"FOUR".to_vec());
    assert_eq!(metrics.tcp_msg_overflow, 0);
    assert!(matches!(decode.decode(&mut src, &mut metrics), Ok(None)));
    assert_eq!(metrics.tcp_msg_overflow, 1);
    assert!(src.is_empty());
}

#[test]
fn an_empty_record_is_a_frame() {
    let mut metrics = Metrics::new();
    let mut decode = Decode::new(0, echo);
    let mut src = BytesMut::from(&b"\0\0X\0"[..]);

    assert_eq!(complete(decode.decode(&mut src, &mut metrics)), Vec::<u8>::new());
    assert_eq!(complete(decode.decode(&mut src, &mut metrics)), Vec::<u8>::new());
    assert!(matches!(decode.decode(&mut src, &mut metrics), Ok(None)));
    assert_eq!(metrics.tcp_msg_overflow, 1);
    assert!(src.is_empty());
}

#[test]
fn an_empty_buffer_asks_for_more() {
    let mut metrics = Metrics::new();
    let mut decode = Decode::new(4, echo);
    let mut src = BytesMut::new();

    assert!(matches!(decode.decode(&mut src, &mut metrics), Ok(None)));
    assert!(matches!(decode.decode_eof(&mut src, &mut metrics), Ok(None)));
    assert_eq!(metrics, Metrics::new());
}

#[test]
fn the_largest_limit_is_taken() {
    let mut metrics = Metrics::new();
    let mut decode = Decode::new(usize::MAX, echo);
    let mut src = BytesMut::from(&b"AB"[..]);

    assert!(matches!(decode.decode(&mut src, &mut metrics), Ok(None)));
    src.extend_from_slice(b"C\0");
    assert_eq!(complete(decode.decode(&mut src, &mut metrics)), b"ABC".to_vec());
}

#[test]
fn what_is_left_at_the_end_of_the_stream_is_a_frame() {
    let mut metrics = Metrics::new();
    let mut decode = Decode::new(16, echo);
    let mut src = BytesMut::from(&b"ONE\0TWO"[..]);

    assert_eq!(complete(decode.decode_eof(&mut src, &mut metrics)), b"ONE".to_vec());
    assert_eq!(&src[..], b"TWO");
    assert_eq!(complete(decode.decode_eof(&mut src, &mut metrics)), b"TWO".to_vec());
    assert!(src.is_empty());
    assert!(matches!(decode.decode_eof(&mut src, &mut metrics), Ok(None)));
}

#[test]
fn a_decoder_that_wants_more_yields_incomplete() {
    let mut metrics = Metrics::new();
    let mut decode = Decode::new(16, |_frame: Bytes| -> Result<Option<Vec<u8>>, String> { Ok(None) });
    let mut src = BytesMut::from(&b"CHUNK\0"[..]);

    assert!(matches!(decode.decode(&mut src, &mut metrics), Ok(Some(Received::Incomplete))));
    assert!(src.is_empty());
}

#[test]
fn a_decoder_failure_is_passed_on_and_the_frame_is_gone() {
    let mut metrics = Metrics::new();
    let mut decode = Decode::new(16, |frame: Bytes| -> Result<Option<Vec<u8>>, String> {
        Err(format!("bad frame of {} bytes", frame.len()))
    });
    let mut src = BytesMut::from(&b"BAD\0TAIL"[..]);

    match decode.decode(&mut src, &mut metrics) {
        Err(err) => assert_eq!(err, "bad frame of 3 bytes"),
        other => panic!("expected a failure, got {:?}", other),
    }
    assert_eq!(&src[..], b"TAIL");
    match decode.decode_eof(&mut src, &mut metrics) {
        Err(err) => assert_eq!(err, "bad frame of 4 bytes"),
        other => panic!("expected a failure, got {:?}", other),
    }
    assert!(src.is_empty());
}

#[test]
fn the_decoder_never_sees_more_than_the_limit() {
    let mut metrics = Metrics::new();
    let mut longest = 0;
    let mut frames = 0;
    {
        let mut decode = Decode::new(3, |frame: Bytes| -> Result<Option<Vec<u8>>, String> {
            longest = longest.max(frame.len());
            frames += 1;
            Ok(Some(frame.to_vec()))
        });
        let mut src = BytesMut::new();
        for chunk in [&b"A\0BB\0CCC\0DD"[..], &b"DD\0EEEEE\0"[..], &b"F\0"[..]] {
            src.extend_from_slice(chunk);
            while let Ok(Some(_)) = decode.decode(&mut src, &mut metrics) {}
        }
    }
    assert_eq!(longest, 3);
    assert_eq!(frames, 4);
    assert_eq!(metrics.tcp_msg_overflow, 2);
}

#[test]
fn frames_and_what_is_left_make_up_the_stream() {
    let stream = b"ONE\0TWO\0THREE\0FOUR\0FI";
    for cut in 0..=stream.len() {
        let mut metrics = Metrics::new();
        let mut decode = Decode::new(16, echo);
        let mut src = BytesMut::new();
        let mut wire = Vec::new();
        for chunk in [&stream[..cut], &stream[cut..]] {
            src.extend_from_slice(chunk);
            while let Ok(Some(Received::Complete(frame))) = decode.decode(&mut src, &mut metrics) {
                wire.extend_from_slice(&frame);
                wire.push(0);
            }
        }
        wire.extend_from_slice(&src);
        assert_eq!(&wire[..], &stream[..]);
        assert_eq!(&src[..], b"FI");
    }
}

#[test]
fn the_framer_tells_its_state() {
    let mut metrics = Metrics::new();
    let mut decode = Decode::new(4, echo);
    assert_eq!(decode.max_size_bytes(), 4);
    assert_eq!(decode.read_head(), 0);
    assert!(!decode.is_discarding());

    let mut src = BytesMut::from(&b"ABC"[..]);
    assert!(matches!(decode.decode(&mut src, &mut metrics), Ok(None)));
    assert_eq!(decode.read_head(), 3);
    assert!(!decode.is_discarding());

    src.extend_from_slice(b"DEF");
    assert!(matches!(decode.decode(&mut src, &mut metrics), Ok(None)));
    assert_eq!(decode.read_head(), 0);
    assert!(decode.is_discarding());
    assert!(src.is_empty());

    src.extend_from_slice(b"GHI");
    assert!(matches!(decode.decode(&mut src, &mut metrics), Ok(None)));
    assert!(decode.is_discarding());
    assert!(src.is_empty());
    assert_eq!(metrics.tcp_msg_overflow, 1);

    src.extend_from_slice(b"\0JK\0");
    assert_eq!(complete(decode.decode(&mut src, &mut metrics)), b"JK".to_vec());
    assert!(!decode.is_discarding());
    assert_eq!(decode.read_head(), 0);
    assert_eq!(metrics.tcp_msg_overflow, 1);
}

#[test]
fn the_overflow_counter_wraps_around() {
    let mut metrics = Metrics::new();
    metrics.tcp_msg_overflow = u64::MAX;
    let mut decode = Decode::new(1, echo);
    let mut src = BytesMut::from(&b"AAA\0BBB\0"[..]);
    assert!(matches!(decode.decode(&mut src, &mut metrics), Ok(None)));
    assert_eq!(metrics.tcp_msg_overflow, 1);
}
