//! An ADB connection over a byte stream, with the record of what went over it.
use vstd::prelude::*;

use crate::error::{bytes_outcome, AdbErrorView, is_io_error, is_not_connected, not_connected, outcome, IoError, Result, RustADBError};
use crate::models::{command_bytes, sync_command_bytes, ADBCommand, SyncCommand};
use crate::wire::{
    encode_request, framed, hex_length_of, le_value, parse_hex_length, parse_le_length, parse_request_status,
    reply_outcome, okay_bytes, fail_bytes, unit_outcome, utf8_to_string, AdbRequestStatus,
};

verus! {

/// A byte stream that reads and writes, such as a socket or a multiplexed channel.
pub trait ReadWrite: Send {
    /// Reads exactly `n` bytes, as `std::io::Read::read_exact` does.
    fn read_exact(&mut self, n: usize) -> (r: core::result::Result<Vec<u8>, IoError>)
        ensures
            r matches Ok(v) ==> v@.len() == n,
    ;

    /// Reads at most `max` bytes, as `std::io::Read::read` does; none at the end of the stream.
    fn read(&mut self, max: usize) -> (r: core::result::Result<Vec<u8>, IoError>)
        ensures
            r matches Ok(v) ==> v@.len() <= max,
    ;

    /// Writes all of `buf`, as `std::io::Write::write_all` does.
    fn write_all(&mut self, buf: &[u8]) -> core::result::Result<(), IoError>;
}

/// A read asked of a stream.
#[derive(Clone, Copy, Debug, PartialEq, Eq, Structural)]
pub enum ReadRequest {
    /// Exactly this many bytes.
    Exact(usize),
    /// At most this many bytes.
    UpTo(usize),
}

/// ADB transport over a byte stream. Beside the stream it keeps, as ghost state, every byte
/// that the stream accepted and every byte that it delivered, in order.
pub struct StreamTransport {
    stream: Option<Box<dyn ReadWrite>>,
    sent: Ghost<Seq<u8>>,
    received: Ghost<Seq<u8>>,
    faults: Ghost<Seq<IoError>>,
    reads: Ghost<Seq<(ReadRequest, core::result::Result<Seq<u8>, AdbErrorView>)>>,
}

impl StreamTransport {
    /// Whether a stream is attached.
    pub closed spec fn is_connected(&self) -> bool {
        self.stream is Some
    }

    /// The bytes written to the stream so far.
    pub closed spec fn sent(&self) -> Seq<u8> {
        self.sent@
    }

    /// The bytes read from the stream so far.
    pub closed spec fn received(&self) -> Seq<u8> {
        self.received@
    }

    /// The failures that the stream reported so far, in order.
    pub closed spec fn faults(&self) -> Seq<IoError> {
        self.faults@
    }

    /// Every read asked of the stream so far, in order, with what it gave.
    pub closed spec fn reads(&self) -> Seq<(ReadRequest, core::result::Result<Seq<u8>, AdbErrorView>)> {
        self.reads@
    }

    /// Where `r` is an I/O error and a stream was attached at `earlier`, the stream reported
    /// exactly that failure since `earlier`; otherwise it reported none.
    pub open spec fn faulted_with<T>(&self, earlier: &Self, r: Result<T>) -> bool {
        match r {
            Err(RustADBError::IOError(e)) => if earlier.is_connected() {
                self.faults() == earlier.faults().push(e)
            } else {
                self.faults() == earlier.faults()
            },
            _ => self.faults() == earlier.faults(),
        }
    }

    /// `self` is `earlier` after some exchange: the same attachment, and both records extended.
    pub open spec fn continues(&self, earlier: &Self) -> bool {
        &&& self.is_connected() == earlier.is_connected()
        &&& self.sent().len() >= earlier.sent().len()
        &&& self.sent() == earlier.sent() + self.sent_since(earlier)
        &&& self.received().len() >= earlier.received().len()
        &&& self.received() == earlier.received() + self.received_since(earlier)
    }

    /// The bytes written since `earlier`.
    pub open spec fn sent_since(&self, earlier: &Self) -> Seq<u8> {
        self.sent().skip(earlier.sent().len() as int)
    }

    /// The bytes read since `earlier`.
    pub open spec fn received_since(&self, earlier: &Self) -> Seq<u8> {
        self.received().skip(earlier.received().len() as int)
    }

    /// Nothing went over the stream since `earlier`.
    pub open spec fn unchanged_since(&self, earlier: &Self) -> bool {
        &&& self.is_connected() == earlier.is_connected()
        &&& self.sent() == earlier.sent()
        &&& self.received() == earlier.received()
    }

    /// The text that describes the transport, as `Debug` writes it: whether a stream is
    /// attached.
    pub fn debug_text(&self) -> (r: String)
        ensures
            r@ == if self.is_connected() {
                "StreamTransport { connected: true }"@
            } else {
                "StreamTransport { connected: false }"@
            },
    {
        if self.stream.is_some() {
            String::from_str("StreamTransport { connected: true }")
        } else {
            String::from_str("StreamTransport { connected: false }")
        }
    }

    /// Creates a transport with no stream attached.
    pub fn new() -> (t: Self)
        ensures
            !t.is_connected(),
            t.sent() == Seq::<u8>::empty(),
            t.received() == Seq::<u8>::empty(),
            t.faults() == Seq::<IoError>::empty(),
            t.reads() == Seq::<(ReadRequest, core::result::Result<Seq<u8>, AdbErrorView>)>::empty(),
    {
        StreamTransport {
            stream: None,
            sent: Ghost(Seq::empty()),
            received: Ghost(Seq::empty()),
            faults: Ghost(Seq::empty()),
            reads: Ghost(Seq::empty()),
        }
    }

    /// Attaches a byte stream, in place of any attached before.
    pub fn connect(&mut self, stream: Box<dyn ReadWrite>)
        ensures
            final(self).is_connected(),
            final(self).sent() == old(self).sent(),
            final(self).received() == old(self).received(),
            final(self).faults() == old(self).faults(),
            final(self).reads() == old(self).reads(),
    {
        self.stream = Some(stream);
    }

    /// Detaches the stream.
    pub fn disconnect(&mut self) -> (r: Result<()>)
        ensures
            r is Ok,
            !final(self).is_connected(),
            final(self).sent() == old(self).sent(),
            final(self).received() == old(self).received(),
            final(self).faults() == old(self).faults(),
    {
        self.stream = None;
        Ok(())
    }

    /// Writes all of `buf` to the stream.
    pub fn write_all(&mut self, buf: &[u8]) -> (r: Result<()>)
        ensures
            final(self).continues(old(self)),
            final(self).faulted_with(old(self), r),
            final(self).received_since(old(self)) == Seq::<u8>::empty(),
            !old(self).is_connected() ==> is_not_connected(r),
            r is Ok ==> final(self).sent_since(old(self)) == buf@,
            r is Err ==> is_io_error(r) && final(self).sent_since(old(self)) == Seq::<u8>::empty(),
    {
        match &mut self.stream {
            None => Err(not_connected()),
            Some(s) => match s.write_all(buf) {
                Ok(()) => {
                    proof {
                        self.sent@ = self.sent@ + buf@;
                    }
                    assert(self.sent@.skip(old(self).sent@.len() as int) =~= buf@);
                    Ok(())
                },
                Err(e) => {
                    proof {
                        self.faults@ = self.faults@.push(e);
                    }
                    assert(self.sent@.skip(old(self).sent@.len() as int) =~= Seq::<u8>::empty());
                    Err(RustADBError::IOError(e))
                },
            },
        }
    }

    /// Reads exactly `n` bytes from the stream.
    pub fn read_exact(&mut self, n: usize) -> (r: Result<Vec<u8>>)
        ensures
            final(self).continues(old(self)),
            final(self).faulted_with(old(self), r),
            final(self).sent_since(old(self)) == Seq::<u8>::empty(),
            !old(self).is_connected() ==> is_not_connected(r),
            r matches Ok(v) ==> v@.len() == n && final(self).received_since(old(self)) == v@,
            r is Err ==> is_io_error(r) && final(self).received_since(old(self)) == Seq::<u8>::empty(),
            old(self).is_connected() ==> final(self).reads() == old(self).reads().push(
                (ReadRequest::Exact(n), bytes_outcome(r)),
            ),
            !old(self).is_connected() ==> final(self).reads() == old(self).reads(),
    {
        assert(self.sent@.skip(self.sent@.len() as int) =~= Seq::<u8>::empty());
        match &mut self.stream {
            None => {
                assert(self.received@.skip(self.received@.len() as int) =~= Seq::<u8>::empty());
                Err(not_connected())
            },
            Some(s) => match s.read_exact(n) {
                Ok(v) => {
                    proof {
                        self.received@ = self.received@ + v@;
                        self.reads@ = self.reads@.push((ReadRequest::Exact(n), Ok(v@)));
                    }
                    assert(self.received@.skip(old(self).received@.len() as int) =~= v@);
                    Ok(v)
                },
                Err(e) => {
                    proof {
                        self.faults@ = self.faults@.push(e);
                        self.reads@ = self.reads@.push((ReadRequest::Exact(n), Err(AdbErrorView::IO(e.kind, e.message@))));
                    }
                    assert(self.received@.skip(old(self).received@.len() as int) =~= Seq::<u8>::empty());
                    Err(RustADBError::IOError(e))
                },
            },
        }
    }

    /// Reads at most `max` bytes from the stream; none at its end.
    pub fn read(&mut self, max: usize) -> (r: Result<Vec<u8>>)
        ensures
            final(self).continues(old(self)),
            final(self).faulted_with(old(self), r),
            final(self).sent_since(old(self)) == Seq::<u8>::empty(),
            !old(self).is_connected() ==> is_not_connected(r),
            r matches Ok(v) ==> v@.len() <= max && final(self).received_since(old(self)) == v@,
            r is Err ==> is_io_error(r) && final(self).received_since(old(self)) == Seq::<u8>::empty(),
            old(self).is_connected() ==> final(self).reads() == old(self).reads().push(
                (ReadRequest::UpTo(max), bytes_outcome(r)),
            ),
            !old(self).is_connected() ==> final(self).reads() == old(self).reads(),
    {
        assert(self.sent@.skip(self.sent@.len() as int) =~= Seq::<u8>::empty());
        match &mut self.stream {
            None => {
                assert(self.received@.skip(self.received@.len() as int) =~= Seq::<u8>::empty());
                Err(not_connected())
            },
            Some(s) => match s.read(max) {
                Ok(v) => {
                    proof {
                        self.received@ = self.received@ + v@;
                        self.reads@ = self.reads@.push((ReadRequest::UpTo(max), Ok(v@)));
                    }
                    assert(self.received@.skip(old(self).received@.len() as int) =~= v@);
                    Ok(v)
                },
                Err(e) => {
                    proof {
                        self.faults@ = self.faults@.push(e);
                        self.reads@ = self.reads@.push((ReadRequest::UpTo(max), Err(AdbErrorView::IO(e.kind, e.message@))));
                    }
                    assert(self.received@.skip(old(self).received@.len() as int) =~= Seq::<u8>::empty());
                    Err(RustADBError::IOError(e))
                },
            },
        }
    }

    fn read_body_length(&mut self) -> (r: Result<Vec<u8>>)
        ensures
            final(self).continues(old(self)),
            final(self).faulted_with(old(self), r),
            final(self).sent_since(old(self)) == Seq::<u8>::empty(),
            !old(self).is_connected() ==> is_not_connected(r),
            r matches Ok(v) ==> v@.len() == 4 && final(self).received_since(old(self)) == v@,
            r is Err ==> is_io_error(r) && final(self).received_since(old(self)) == Seq::<u8>::empty(),
    {
        self.read_exact(4)
    }

    /// Reads a length in four little-endian bytes, as the sync sub-protocol sends it.
    pub fn get_body_length(&mut self) -> (r: Result<u32>)
        ensures
            final(self).continues(old(self)),
            final(self).faulted_with(old(self), r),
            final(self).sent_since(old(self)) == Seq::<u8>::empty(),
            !old(self).is_connected() ==> is_not_connected(r),
            r matches Ok(n) ==> final(self).received_since(old(self)).len() == 4 && n as nat == le_value(
                final(self).received_since(old(self)),
            ),
            r is Err ==> is_io_error(r) && final(self).received_since(old(self)) == Seq::<u8>::empty(),
    {
        let b = self.read_body_length()?;
        Ok(parse_le_length(b.as_slice()))
    }

    /// Reads a length in four hexadecimal bytes, as the server sends it.
    pub fn get_hex_body_length(&mut self) -> (r: Result<u32>)
        ensures
            final(self).continues(old(self)),
            final(self).faulted_with(old(self), r),
            final(self).sent_since(old(self)) == Seq::<u8>::empty(),
            !old(self).is_connected() ==> is_not_connected(r),
            is_io_error(r) ==> final(self).received_since(old(self)) == Seq::<u8>::empty(),
            !is_io_error(r) ==> final(self).received_since(old(self)).len() == 4 && outcome(r) == hex_length_of(
                final(self).received_since(old(self)),
            ),
    {
        let b = self.read_body_length()?;
        parse_hex_length(b.as_slice())
    }

    /// Two exchanges in a row are one exchange, whose records are the two joined.
    pub proof fn lemma_continues_trans(a: &Self, b: &Self, c: &Self)
        requires
            b.continues(a),
            c.continues(b),
        ensures
            c.continues(a),
            c.sent_since(a) == b.sent_since(a) + c.sent_since(b),
            c.received_since(a) == b.received_since(a) + c.received_since(b),
    {
        assert(c.sent() =~= a.sent() + (b.sent_since(a) + c.sent_since(b)));
        assert(c.sent().skip(a.sent().len() as int) =~= b.sent_since(a) + c.sent_since(b));
        assert(c.received() =~= a.received() + (b.received_since(a) + c.received_since(b)));
        assert(c.received().skip(a.received().len() as int) =~= b.received_since(a) + c.received_since(b));
    }

    /// Reads the server's answer to a request that has no response: its status, and the
    /// message of a `FAIL`.
    pub fn read_adb_response(&mut self) -> (r: Result<()>)
        ensures
            final(self).continues(old(self)),
            final(self).faulted_with(old(self), r),
            final(self).sent_since(old(self)) == Seq::<u8>::empty(),
            !old(self).is_connected() ==> is_not_connected(r) && final(self).unchanged_since(old(self)),
            !is_io_error(r) ==> reply_outcome(final(self).received_since(old(self)), false) == Some(unit_outcome(r)),
            is_io_error(r) ==> reply_outcome(final(self).received_since(old(self)), false) is None
                && reply_outcome(final(self).received_since(old(self)), true) is None,
            is_io_error(r) ==> final(self).received_since(old(self)).len() < 4 || final(self).received_since(
                old(self),
            ).take(4) == fail_bytes(),
    {
        let ghost s0 = *self;
        let st = match self.read_exact(4) {
            Ok(st) => st,
            Err(e) => {
                assert(self.received() =~= s0.received());
                assert(self.sent() =~= s0.sent());
                return Err(e);
            },
        };
        let ghost s1 = *self;
        let status = parse_request_status(st.as_slice());
        match status {
            Err(e) => {
                assert(self.received_since(&s0).take(4) =~= st@);
                assert(self.received_since(&s0).skip(4) =~= Seq::<u8>::empty());
                Err(e)
            },
            Ok(AdbRequestStatus::Okay) => {
                assert(self.received_since(&s0).take(4) =~= st@);
                assert(self.received_since(&s0).skip(4) =~= Seq::<u8>::empty());
                Ok(())
            },
            Ok(AdbRequestStatus::Fail) => {
                let lr = self.get_hex_body_length();
                let ghost s2 = *self;
                proof {
                    Self::lemma_continues_trans(&s0, &s1, &s2);
                }
                let ghost rr = s2.received_since(&s0);
                let len = match lr {
                    Ok(len) => len,
                    Err(e) => {
                        proof {
                            assert(rr.take(4) =~= st@);
                            assert(rr.skip(4) =~= s2.received_since(&s1));
                            if !(e is IOError) {
                                assert(s2.received_since(&s1).take(4) =~= s2.received_since(&s1));
                            }
                        }
                        return Err(e);
                    },
                };
                let n = len as usize;
                let body = if len > 0 {
                    match self.read_exact(n) {
                        Ok(b) => b,
                        Err(e) => {
                            proof {
                                Self::lemma_continues_trans(&s0, &s2, &*self);
                                let lenb = s2.received_since(&s1);
                                assert(rr =~= st@ + lenb);
                                assert(rr.take(4) =~= st@);
                                assert(rr.skip(4) =~= lenb);
                                assert(lenb.take(4) =~= lenb);
                            }
                            return Err(e);
                        },
                    }
                } else {
                    Vec::new()
                };
                proof {
                    Self::lemma_continues_trans(&s0, &s2, &*self);
                }
                let ghost lenb = s2.received_since(&s1);
                let ghost r = self.received_since(&s0);
                assert(r =~= st@ + lenb + body@);
                assert(r.take(4) =~= st@);
                assert(r.skip(4) =~= lenb + body@);
                assert(r.skip(4).take(4) =~= lenb);
                assert(lenb.take(4) =~= lenb);
                assert(r.skip(4).skip(4) =~= body@);
                match utf8_to_string(body.as_slice()) {
                    Some(m) => Err(RustADBError::ADBRequestFailed(m)),
                    None => Err(RustADBError::Utf8StringError),
                }
            },
        }
    }

    /// Sends a request, framed with its length, and reads the server's status.
    pub fn send_adb_request(&mut self, command: &ADBCommand) -> (r: Result<()>)
        ensures
            final(self).continues(old(self)),
            final(self).faulted_with(old(self), r),
            !old(self).is_connected() ==> is_not_connected(r) && final(self).unchanged_since(old(self)),
            final(self).sent_since(old(self)) == Seq::<u8>::empty() || final(self).sent_since(old(self))
                == framed(command_bytes(*command)),
            !is_io_error(r) ==> final(self).sent_since(old(self)) == framed(command_bytes(*command))
                && reply_outcome(final(self).received_since(old(self)), false) == Some(unit_outcome(r)),
            is_io_error(r) ==> reply_outcome(final(self).received_since(old(self)), false) is None
                && reply_outcome(final(self).received_since(old(self)), true) is None,
            is_io_error(r) ==> final(self).received_since(old(self)).len() < 4 || final(self).received_since(
                old(self),
            ).take(4) == fail_bytes(),
            final(self).received_since(old(self)).len() > 0 ==> final(self).sent_since(old(self)) == framed(
                command_bytes(*command),
            ),
    {
        let ghost s0 = *self;
        let payload = command.to_bytes();
        let request = encode_request(payload.as_slice());
        match self.write_all(request.as_slice()) {
            Ok(()) => {},
            Err(e) => {
                assert(self.received() =~= s0.received());
                assert(self.sent() =~= s0.sent());
                return Err(e);
            },
        }
        let ghost s1 = *self;
        let r = self.read_adb_response();
        proof {
            Self::lemma_continues_trans(&s0, &s1, &*self);
            assert(s1.received_since(&s0) =~= Seq::<u8>::empty());
            assert(self.received_since(&s0) =~= self.received_since(&s1));
            assert(self.sent_since(&s1) =~= Seq::<u8>::empty());
            assert(self.sent_since(&s0) =~= request@);
        }
        r
    }

    /// Sends a request and reads the answer: the status, then, where `with_response`, the
    /// body that follows `OKAY` with its hexadecimal length.
    pub fn proxy_connection(&mut self, command: &ADBCommand, with_response: bool) -> (r: Result<Vec<u8>>)
        ensures
            final(self).continues(old(self)),
            final(self).faulted_with(old(self), r),
            !old(self).is_connected() ==> is_not_connected(r) && final(self).unchanged_since(old(self)),
            final(self).sent_since(old(self)) == Seq::<u8>::empty() || final(self).sent_since(old(self))
                == framed(command_bytes(*command)),
            !is_io_error(r) ==> final(self).sent_since(old(self)) == framed(command_bytes(*command))
                && reply_outcome(final(self).received_since(old(self)), with_response) == Some(bytes_outcome(r)),
            is_io_error(r) ==> reply_outcome(final(self).received_since(old(self)), with_response) is None,
            final(self).received_since(old(self)).len() > 0 ==> final(self).sent_since(old(self)) == framed(
                command_bytes(*command),
            ),
    {
        let ghost s0 = *self;
        match self.send_adb_request(command) {
            Ok(()) => {},
            Err(e) => {
                return Err(e);
            },
        }
        let ghost s1 = *self;
        let ghost r1 = s1.received_since(&s0);
        assert(r1.take(4) =~= r1);
        if !with_response {
            return Ok(Vec::new());
        }
        assert(r1 =~= okay_bytes());
        let lr = self.get_hex_body_length();
        let ghost s2 = *self;
        proof {
            Self::lemma_continues_trans(&s0, &s1, &s2);
        }
        let ghost lenb = s2.received_since(&s1);
        let length = match lr {
            Ok(n) => n,
            Err(e) => {
                proof {
                    let rr = s2.received_since(&s0);
                    assert(rr =~= r1 + lenb);
                    assert(rr.take(4) =~= r1);
                    assert(rr.skip(4) =~= lenb);
                    if !(e is IOError) {
                        assert(lenb.take(4) =~= lenb);
                    }
                }
                return Err(e);
            },
        };
        let body = if length > 0 {
            match self.read_exact(length as usize) {
                Ok(b) => b,
                Err(e) => {
                    proof {
                        Self::lemma_continues_trans(&s0, &s2, &*self);
                        let rr = self.received_since(&s0);
                        assert(rr =~= r1 + lenb);
                        assert(rr.take(4) =~= r1);
                        assert(rr.skip(4) =~= lenb);
                        assert(lenb.take(4) =~= lenb);
                    }
                    return Err(e);
                },
            }
        } else {
            Vec::new()
        };
        proof {
            Self::lemma_continues_trans(&s0, &s2, &*self);
            let rr = self.received_since(&s0);
            assert(rr =~= r1 + lenb + body@);
            assert(rr.take(4) =~= r1);
            assert(rr.skip(4) =~= lenb + body@);
            assert(rr.skip(4).take(4) =~= lenb);
            assert(lenb.take(4) =~= lenb);
            assert(rr.skip(4).skip(4) =~= body@);
        }
        Ok(body)
    }

    /// Sends a command of the sync sub-protocol: its four-letter word.
    pub fn send_sync_request(&mut self, command: &SyncCommand) -> (r: Result<()>)
        ensures
            final(self).continues(old(self)),
            final(self).faulted_with(old(self), r),
            final(self).received_since(old(self)) == Seq::<u8>::empty(),
            !old(self).is_connected() ==> is_not_connected(r),
            r is Ok ==> final(self).sent_since(old(self)) == sync_command_bytes(*command),
            r is Err ==> is_io_error(r) && final(self).sent_since(old(self)) == Seq::<u8>::empty(),
    {
        let word = command.to_bytes();
        self.write_all(word.as_slice())
    }
}

} // verus!
