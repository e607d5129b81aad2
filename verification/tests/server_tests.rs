//! Command decoding, store dispatch, end-of-stream semantics, and the
//! end-to-end request/response scenario.

use minikv::codec::parse;
use minikv::command::{Command, CommandError};
use minikv::conn::{ConnectionError, ReadBuffer};
use minikv::frame::Frame;
use minikv::store::Store;
use std::sync::{Arc, Mutex};

fn bulk(s: &[u8]) -> Frame {
    Frame::Bulk(s.to_vec())
}

#[test]
fn decodes_get_and_set_commands() {
    let f = Frame::Array(vec![bulk(b"GET"), bulk(b"hello")]);
    assert_eq!(Command::from_frame(f), Ok(Command::Get(b"hello".to_vec())));

    let f = Frame::Array(vec![bulk(b"SET"), bulk(b"hello"), bulk(b"world")]);
    assert_eq!(
        Command::from_frame(f),
        Ok(Command::Put(b"hello".to_vec(), b"world".to_vec()))
    );

    // letter case of the name is ignored, and simple text works too
    let f = Frame::Array(vec![Frame::Simple(b"get".to_vec()), bulk(b"k")]);
    assert_eq!(Command::from_frame(f), Ok(Command::Get(b"k".to_vec())));
}

#[test]
fn rejects_malformed_commands() {
    // not an array at all
    assert_eq!(
        Command::from_frame(Frame::Simple(b"GET".to_vec())),
        Err(CommandError::BadShape)
    );
    // empty array
    assert_eq!(Command::from_frame(Frame::Array(vec![])), Err(CommandError::BadShape));
    // name is not text
    assert_eq!(
        Command::from_frame(Frame::Array(vec![Frame::Integer(1), bulk(b"k")])),
        Err(CommandError::BadShape)
    );
    // GET with a missing or an extra argument
    assert_eq!(
        Command::from_frame(Frame::Array(vec![bulk(b"GET")])),
        Err(CommandError::WrongArity)
    );
    assert_eq!(
        Command::from_frame(Frame::Array(vec![bulk(b"GET"), bulk(b"a"), bulk(b"b")])),
        Err(CommandError::WrongArity)
    );
    // SET with too few or too many arguments
    assert_eq!(
        Command::from_frame(Frame::Array(vec![bulk(b"SET"), bulk(b"a")])),
        Err(CommandError::WrongArity)
    );
    assert_eq!(
        Command::from_frame(Frame::Array(vec![
            bulk(b"SET"),
            bulk(b"a"),
            bulk(b"b"),
            bulk(b"c")
        ])),
        Err(CommandError::WrongArity)
    );
    // a GET argument that is not text
    assert_eq!(
        Command::from_frame(Frame::Array(vec![bulk(b"GET"), Frame::Null])),
        Err(CommandError::BadShape)
    );
}

#[test]
fn unrecognized_commands_carry_their_name() {
    let f = Frame::Array(vec![bulk(b"PING")]);
    assert_eq!(Command::from_frame(f), Ok(Command::Unknown(b"PING".to_vec())));
    let f = Frame::Array(vec![bulk(b"SUBSCRIBE"), bulk(b"a"), bulk(b"b"), bulk(b"c")]);
    assert_eq!(
        Command::from_frame(f),
        Ok(Command::Unknown(b"SUBSCRIBE".to_vec()))
    );
}

#[test]
fn store_set_then_get_until_overwritten() {
    let mut st = Store::new();
    assert_eq!(st.get(b"hello"), None);
    st.set(b"hello".to_vec(), b"world".to_vec());
    assert_eq!(st.get(b"hello"), Some(b"world".to_vec()));
    // a set of another key does not disturb it, on any handler sharing it
    st.set(b"other".to_vec(), b"value".to_vec());
    assert_eq!(st.get(b"hello"), Some(b"world".to_vec()));
    // overwriting replaces the value
    st.set(b"hello".to_vec(), b"again".to_vec());
    assert_eq!(st.get(b"hello"), Some(b"again".to_vec()));
}

#[test]
fn concurrent_distinct_sets_all_persist() {
    let rt = tokio::runtime::Builder::new_multi_thread()
        .worker_threads(4)
        .build()
        .unwrap();
    let db = Arc::new(Mutex::new(Store::new()));
    rt.block_on(async {
        let mut handles = Vec::new();
        for i in 0..8u8 {
            let db = db.clone();
            handles.push(tokio::spawn(async move {
                let mut store = db.lock().unwrap();
                store.set(vec![b'k', b'0' + i], vec![b'v', b'0' + i]);
            }));
        }
        for h in handles {
            h.await.unwrap();
        }
    });
    let store = db.lock().unwrap();
    for i in 0..8u8 {
        assert_eq!(store.get(&[b'k', b'0' + i]), Some(vec![b'v', b'0' + i]));
    }
}

#[test]
fn distinct_sets_all_persist() {
    // the same operations in two serialization orders: all persist
    let ops: Vec<(&[u8], &[u8])> =
        vec![(b"k1", b"v1"), (b"k2", b"v2"), (b"k3", b"v3"), (b"k4", b"v4")];
    for order in [[0usize, 1, 2, 3], [3, 1, 0, 2]] {
        let mut st = Store::new();
        for &i in order.iter() {
            st.set(ops[i].0.to_vec(), ops[i].1.to_vec());
        }
        for &(k, v) in ops.iter() {
            assert_eq!(st.get(k), Some(v.to_vec()));
        }
    }
}

#[test]
fn dispatch_get_and_set() {
    let mut st = Store::new();
    let r = st
        .respond(Frame::Array(vec![bulk(b"SET"), bulk(b"k"), bulk(b"v")]))
        .expect("set dispatches");
    assert_eq!(r, Frame::Simple(b"OK".to_vec()));
    let r = st
        .respond(Frame::Array(vec![bulk(b"GET"), bulk(b"k")]))
        .expect("get dispatches");
    assert_eq!(r, Frame::Bulk(b"v".to_vec()));
    let r = st
        .respond(Frame::Array(vec![bulk(b"GET"), bulk(b"missing")]))
        .expect("get of an absent key dispatches");
    assert_eq!(r, Frame::Null);
    // an unrecognized command is fatal to the handler
    assert_eq!(
        st.respond(Frame::Array(vec![bulk(b"PING")])),
        Err(CommandError::Unrecognized)
    );
}

#[test]
fn scenario_set_then_get_on_the_wire() {
    let mut st = Store::new();
    let mut rb = ReadBuffer::new();

    rb.feed(b"*3\r\n$3\r\nSET\r\n$5\r\nhello\r\n$5\r\nworld\r\n");
    let f = rb.try_frame().expect("well-formed").expect("complete");
    let resp = st.respond(f).expect("dispatches");
    assert_eq!(resp.encode(), b"+OK\r\n".to_vec());

    rb.feed(b"*2\r\n$3\r\nGET\r\n$5\r\nhello\r\n");
    let f = rb.try_frame().expect("well-formed").expect("complete");
    let resp = st.respond(f).expect("dispatches");
    assert_eq!(resp.encode(), b"$5\r\nworld\r\n".to_vec());

    rb.feed(b"*2\r\n$3\r\nGET\r\n$7\r\nmissing\r\n");
    let f = rb.try_frame().expect("well-formed").expect("complete");
    let resp = st.respond(f).expect("dispatches");
    assert_eq!(resp.encode(), b"$-1\r\n".to_vec());
}

#[test]
fn end_of_stream_semantics() {
    // clean end: the buffer is empty
    let rb = ReadBuffer::new();
    assert_eq!(rb.end_of_input(), Ok(None));
    // a consumed frame leaves the buffer clean again
    let mut rb = ReadBuffer::new();
    rb.feed(b"+OK\r\n");
    rb.try_frame().expect("well-formed").expect("complete");
    assert_eq!(rb.end_of_input(), Ok(None));
    // closing mid-frame is a reset, not a clean end
    let mut rb = ReadBuffer::new();
    rb.feed(b"+OK\r");
    assert_eq!(rb.try_frame(), Ok(None));
    assert_eq!(rb.end_of_input(), Err(ConnectionError::Reset));
}

#[test]
fn parse_then_dispatch_uses_exact_frame_spans() {
    // two pipelined requests arrive in one read
    let mut rb = ReadBuffer::new();
    let mut st = Store::new();
    rb.feed(b"*3\r\n$3\r\nSET\r\n$1\r\na\r\n$1\r\n1\r\n*2\r\n$3\r\nGET\r\n$1\r\na\r\n");
    let f1 = rb.try_frame().expect("well-formed").expect("complete");
    st.respond(f1).expect("dispatches");
    let f2 = rb.try_frame().expect("well-formed").expect("complete");
    let resp = st.respond(f2).expect("dispatches");
    assert_eq!(resp, Frame::Bulk(b"1".to_vec()));
    assert_eq!(rb.len(), 0);
    // a malformed buffer is a protocol error, distinct from incomplete
    let mut rb = ReadBuffer::new();
    rb.feed(b"!bad\r\n");
    assert!(rb.try_frame().is_err());
    let _ = parse(b"+ok\r\n").expect("parse is usable directly");
}
