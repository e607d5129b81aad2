//! The connection read buffer: bytes received from a stream but not yet
//! consumed as complete frames.
//!
//! The buffer grows as needed to hold one frame larger than its current
//! capacity, and the bytes of each fully parsed frame are discarded from
//! its front, so it never retains already-delivered data.

use vstd::prelude::*;
use crate::codec::{parse, scan, FrameError, ScanResult};
use crate::frame::Frame;

verus! {

/// Initial capacity of a connection's read buffer, in bytes.
pub const READ_BUFFER_CAPACITY: usize = 4096;

#[verifier::external_type_specification]
#[verifier::external_body]
pub struct ExBytesMut(bytes::BytesMut);

/// The bytes a `bytes::BytesMut` holds, in order.
pub uninterp spec fn bytes_mut_view(b: bytes::BytesMut) -> Seq<u8>;

/// Relies on bytes::BytesMut::with_capacity: the new buffer holds no bytes.
#[verifier::external_body]
fn bytes_mut_with_capacity(cap: usize) -> (r: bytes::BytesMut)
    ensures
        bytes_mut_view(r) == Seq::<u8>::empty(),
{
    bytes::BytesMut::with_capacity(cap)
}

/// Relies on bytes::BytesMut::as_ref: a slice of exactly the held bytes.
#[verifier::external_body]
fn bytes_mut_slice(b: &bytes::BytesMut) -> (r: &[u8])
    ensures
        r@ == bytes_mut_view(*b),
{
    b.as_ref()
}

/// Relies on bytes::BytesMut::extend_from_slice: appends the given bytes,
/// growing the buffer as needed.
#[verifier::external_body]
fn bytes_mut_extend(b: &mut bytes::BytesMut, data: &[u8])
    ensures
        bytes_mut_view(*final(b)) == bytes_mut_view(*old(b)) + data@,
{
    b.extend_from_slice(data)
}

/// Relies on bytes::Buf::advance on BytesMut: discards the first `n` held
/// bytes. It panics when `n` exceeds the held length, so that is excluded.
#[verifier::external_body]
fn bytes_mut_advance(b: &mut bytes::BytesMut, n: usize)
    requires
        n <= bytes_mut_view(*old(b)).len(),
    ensures
        bytes_mut_view(*final(b)) == bytes_mut_view(*old(b)).skip(n as int),
{
    bytes::Buf::advance(b, n)
}

/// How reading frames from a connection ends abnormally beyond a
/// malformed frame: the stream ended with a partial frame still buffered.
#[derive(Clone, Copy, Debug, PartialEq, Eq, Structural)]
pub enum ConnectionError {
    Reset,
}

/// The per-connection read buffer.
pub struct ReadBuffer {
    data: bytes::BytesMut,
}

impl View for ReadBuffer {
    type V = Seq<u8>;

    closed spec fn view(&self) -> Seq<u8> {
        bytes_mut_view(self.data)
    }
}

impl ReadBuffer {
    /// A new, empty buffer with the standard initial capacity.
    pub fn new() -> (r: ReadBuffer)
        ensures
            r@ == Seq::<u8>::empty(),
    {
        ReadBuffer { data: bytes_mut_with_capacity(READ_BUFFER_CAPACITY) }
    }

    /// The count of buffered bytes.
    pub fn len(&self) -> (r: usize)
        ensures
            r == self@.len(),
    {
        bytes_mut_slice(&self.data).len()
    }

    /// Append bytes just read from the stream.
    pub fn feed(&mut self, data: &[u8])
        ensures
            final(self)@ == old(self)@ + data@,
    {
        bytes_mut_extend(&mut self.data, data);
    }

    /// Try to consume one complete frame from the front of the buffer:
    /// some frame exactly when the scanner finds one there, which is then
    /// discarded from the front; none when the bytes are incomplete; an
    /// error when they are malformed. Without a complete frame the buffer
    /// is left unchanged.
    pub fn try_frame(&mut self) -> (r: Result<Option<Frame>, FrameError>)
        ensures
            match r {
                Ok(Some(f)) => scan(old(self)@) matches ScanResult::Found(fm, n) && f.model()
                    == fm && final(self)@ == old(self)@.skip(n),
                Ok(None) => scan(old(self)@) is Partial && final(self)@ == old(self)@,
                Err(e) => e == FrameError::Malformed && scan(old(self)@) is Bad && final(self)@
                    == old(self)@,
            },
    {
        let pr = {
            let sl = bytes_mut_slice(&self.data);
            parse(sl)
        };
        match pr {
            Ok(p) => {
                proof {
                    crate::codec::lemma_scan_bounds(old(self)@);
                }
                let f = p.0;
                bytes_mut_advance(&mut self.data, p.1);
                Ok(Some(f))
            }
            Err(FrameError::Incomplete) => Ok(None),
            Err(FrameError::Malformed) => Err(FrameError::Malformed),
        }
    }

    /// The outcome when the stream reaches its end: a clean end-of-stream
    /// exactly when the buffer is empty, else the peer closed mid-frame.
    pub fn end_of_input(&self) -> (r: Result<Option<Frame>, ConnectionError>)
        ensures
            self@.len() == 0 ==> r == Ok::<Option<Frame>, ConnectionError>(None),
            self@.len() != 0 ==> r == Err::<Option<Frame>, ConnectionError>(
                ConnectionError::Reset,
            ),
    {
        if bytes_mut_slice(&self.data).len() == 0 {
            Ok(None)
        } else {
            Err(ConnectionError::Reset)
        }
    }
}

} // verus!
