//! Round-trip, incremental-delivery, and incomplete-detection checks for
//! the frame codec.

use minikv::codec::{check, parse, FrameError};
use minikv::conn::ReadBuffer;
use minikv::frame::Frame;

fn sample_frames() -> Vec<Frame> {
    vec![
        Frame::Simple(b"OK".to_vec()),
        Frame::Simple(Vec::new()),
        Frame::Error(b"Error message".to_vec()),
        Frame::Integer(0),
        Frame::Integer(7),
        Frame::Integer(12345),
        Frame::Integer(u64::MAX),
        Frame::Bulk(b"hello".to_vec()),
        Frame::Bulk(Vec::new()),
        Frame::Bulk(vec![0u8, 255u8, 13u8, 10u8, 1u8]),
        Frame::Null,
    ]
}

#[test]
fn round_trip_every_variant() {
    for f in sample_frames() {
        let bytes = f.encode();
        let end = check(&bytes).expect("complete frame");
        assert_eq!(end, bytes.len());
        let (g, used) = parse(&bytes).expect("parsable frame");
        assert_eq!(used, bytes.len());
        assert_eq!(g, f);
    }
}

#[test]
fn exact_wire_bytes() {
    assert_eq!(Frame::Simple(b"OK".to_vec()).encode(), b"+OK\r\n".to_vec());
    assert_eq!(Frame::Error(b"oops".to_vec()).encode(), b"-oops\r\n".to_vec());
    assert_eq!(Frame::Integer(0).encode(), b":0\r\n".to_vec());
    assert_eq!(Frame::Integer(12345).encode(), b":12345\r\n".to_vec());
    assert_eq!(
        Frame::Integer(u64::MAX).encode(),
        b":18446744073709551615\r\n".to_vec()
    );
    assert_eq!(Frame::Bulk(b"hello".to_vec()).encode(), b"$5\r\nhello\r\n".to_vec());
    assert_eq!(Frame::Bulk(Vec::new()).encode(), b"$0\r\n\r\n".to_vec());
    assert_eq!(Frame::Null.encode(), b"$-1\r\n".to_vec());
}

#[test]
fn incomplete_on_every_strict_prefix() {
    for f in sample_frames() {
        let bytes = f.encode();
        for i in 0..bytes.len() {
            assert_eq!(
                check(&bytes[..i]),
                Err(FrameError::Incomplete),
                "prefix of length {} of {:?}",
                i,
                bytes
            );
        }
    }
}

#[test]
fn incremental_delivery_at_every_boundary() {
    for f in sample_frames() {
        let bytes = f.encode();
        for i in 0..bytes.len() {
            let mut rb = ReadBuffer::new();
            rb.feed(&bytes[..i]);
            assert_eq!(rb.try_frame(), Ok(None), "split at {}", i);
            rb.feed(&bytes[i..]);
            match rb.try_frame() {
                Ok(Some(g)) => assert_eq!(g, f),
                other => panic!("expected the frame, got {:?}", other),
            }
            assert_eq!(rb.len(), 0);
        }
    }
}

#[test]
fn delivery_in_three_chunks() {
    let bytes = b"*3\r\n$3\r\nSET\r\n$5\r\nhello\r\n$5\r\nworld\r\n".to_vec();
    for i in 0..bytes.len() {
        for j in i..bytes.len() {
            let mut rb = ReadBuffer::new();
            rb.feed(&bytes[..i]);
            assert_eq!(rb.try_frame(), Ok(None));
            rb.feed(&bytes[i..j]);
            assert_eq!(rb.try_frame(), Ok(None));
            rb.feed(&bytes[j..]);
            match rb.try_frame() {
                Ok(Some(Frame::Array(items))) => assert_eq!(items.len(), 3),
                other => panic!("expected the array, got {:?}", other),
            }
        }
    }
}

#[test]
fn array_decodes_recursively() {
    let bytes = b"*3\r\n+a\r\n:5\r\n$2\r\nxy\r\n".to_vec();
    let (f, used) = parse(&bytes).expect("array frame");
    assert_eq!(used, bytes.len());
    assert_eq!(
        f,
        Frame::Array(vec![
            Frame::Simple(b"a".to_vec()),
            Frame::Integer(5),
            Frame::Bulk(b"xy".to_vec()),
        ])
    );
    for i in 0..bytes.len() {
        assert_eq!(check(&bytes[..i]), Err(FrameError::Incomplete));
    }
}

#[test]
fn nested_array_decodes() {
    let bytes = b"*2\r\n*1\r\n:1\r\n$-1\r\n".to_vec();
    let (f, used) = parse(&bytes).expect("nested array");
    assert_eq!(used, bytes.len());
    assert_eq!(
        f,
        Frame::Array(vec![Frame::Array(vec![Frame::Integer(1)]), Frame::Null])
    );
}

#[test]
fn malformed_inputs_are_rejected() {
    assert_eq!(check(b"!oops\r\n"), Err(FrameError::Malformed));
    assert_eq!(check(b":12a\r\n"), Err(FrameError::Malformed));
    assert_eq!(check(b":\r\n"), Err(FrameError::Malformed));
    assert_eq!(check(b":18446744073709551616\r\n"), Err(FrameError::Malformed));
    assert_eq!(check(b"$-2\r\n"), Err(FrameError::Malformed));
    assert_eq!(check(b"$3x\r\nabc\r\n"), Err(FrameError::Malformed));
    assert_eq!(check(b"$3\r\nabcXY"), Err(FrameError::Malformed));
    assert_eq!(check(b"*1x\r\n:1\r\n"), Err(FrameError::Malformed));
    assert_eq!(check(b"*1\r\n!\r\n"), Err(FrameError::Malformed));
}

#[test]
fn non_utf8_line_payloads_are_protocol_errors() {
    // a simple or error payload must be UTF-8 text
    assert_eq!(check(b"+\xFF\r\n"), Err(FrameError::Malformed));
    assert_eq!(check(b"-\x80zz\r\n"), Err(FrameError::Malformed));
    // truncated two-byte character at the end of the line
    assert_eq!(check(b"+\xC3\r\n"), Err(FrameError::Malformed));
    // overlong form
    assert_eq!(check(b"+\xC0\x80\r\n"), Err(FrameError::Malformed));
    // surrogate range
    assert_eq!(check(b"+\xED\xA0\x80\r\n"), Err(FrameError::Malformed));
    // well-formed two- and four-byte characters decode
    let (f, used) = parse(b"+h\xC3\xA9llo\r\n").expect("accented text");
    assert_eq!(f, Frame::Simple(b"h\xC3\xA9llo".to_vec()));
    assert_eq!(used, 9);
    assert!(parse(b"+\xF0\x9F\x99\x82\r\n").is_ok());
    // bulk payloads stay raw bytes
    assert!(parse(b"$1\r\n\xFF\r\n").is_ok());
    // the same classification through the read buffer
    let mut rb = ReadBuffer::new();
    rb.feed(b"+\xFF\r\n");
    assert_eq!(rb.try_frame(), Err(FrameError::Malformed));
    // a frame with such a payload cannot be encoded either
    assert!(!Frame::Simple(vec![255u8]).encodable());
    assert!(Frame::Simple(b"OK".to_vec()).encodable());
}

#[test]
fn leading_zeros_and_trailing_bytes() {
    let (f, used) = parse(b":007\r\n").expect("leading zeros accepted");
    assert_eq!(f, Frame::Integer(7));
    assert_eq!(used, 6);
    // a complete frame followed by more bytes consumes only the frame
    let (f, used) = parse(b"+OK\r\n:3\r\n").expect("first frame");
    assert_eq!(f, Frame::Simple(b"OK".to_vec()));
    assert_eq!(used, 5);
}

#[test]
fn consumes_frames_in_order() {
    let mut rb = ReadBuffer::new();
    rb.feed(b"+one\r\n+two\r\n");
    assert_eq!(rb.try_frame(), Ok(Some(Frame::Simple(b"one".to_vec()))));
    assert_eq!(rb.try_frame(), Ok(Some(Frame::Simple(b"two".to_vec()))));
    assert_eq!(rb.try_frame(), Ok(None));
}
