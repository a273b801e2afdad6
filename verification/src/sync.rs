//! Sending a file with the sync sub-protocol: the frames, and the server's final answer.
use vstd::prelude::*;
use vstd::utf8::{decode_utf8, encode_utf8, valid_utf8};

use crate::error::{is_io_error, is_not_connected, AdbErrorView, IoError, IoErrorKind, Result, RustADBError};
use crate::models::text;
use crate::shell::BUFFER_SIZE;
use crate::stream_transport::StreamTransport;
use crate::wire::{
    failure_of, le_bytes, le_value, parse_request_status, push_le, status_of, unit_outcome, utf8_to_string,
    AdbRequestStatus,
};

verus! {

/// The target of a `SEND`: the remote path, then the file mode.
pub open spec fn send_target(path: Seq<char>) -> Seq<u8> {
    encode_utf8(path) + text(",0777")
}

/// The frame that opens a `SEND`: the target's length in four little-endian bytes (zero
/// where it does not fit a `u32`), then the target.
pub open spec fn send_header_bytes(path: Seq<char>) -> Seq<u8> {
    let to = send_target(path);
    le_bytes(if to.len() <= u32::MAX { to.len() } else { 0 }, 4) + to
}

/// A frame of file content: `DATA`, the chunk's length in four little-endian bytes, the chunk.
pub open spec fn data_frame_bytes(chunk: Seq<u8>) -> Seq<u8> {
    text("DATA") + le_bytes(chunk.len(), 4) + chunk
}

/// The frame that ends a `SEND`: `DONE`, then the modification time in eight
/// little-endian bytes.
pub open spec fn done_frame_bytes(secs: u64) -> Seq<u8> {
    text("DONE") + le_bytes(secs as nat, 8)
}

/// The server's answer to a finished `SEND`: `Some` when `r` is exactly what the client
/// reads of it. `OKAY` ends it; `FAIL` is followed by a message with its length in four
/// little-endian bytes.
pub open spec fn sync_reply_outcome(r: Seq<u8>) -> Option<core::result::Result<Seq<u8>, AdbErrorView>> {
    if r.len() < 4 {
        None
    } else {
        let rest = r.skip(4);
        match status_of(r.take(4)) {
            Err(e) => if rest.len() == 0 { Some(Err(e)) } else { None },
            Ok(AdbRequestStatus::Okay) => if rest.len() == 0 { Some(Ok(Seq::empty())) } else { None },
            Ok(AdbRequestStatus::Fail) => if rest.len() >= 4 && rest.len() == 4 + le_value(rest.take(4)) {
                Some(Err(failure_of(rest.skip(4))))
            } else {
                None
            },
        }
    }
}

/// The length field of a `SEND` header is the number of bytes that follow it, the target's
/// UTF-8 bytes (the path's, then `,0777`), wherever that fits a `u32`.
pub proof fn lemma_send_header_length(path: Seq<char>)
    requires
        encode_utf8(path).len() + 5 <= u32::MAX,
    ensures
        send_header_bytes(path).len() == 4 + encode_utf8(path).len() + 5,
        le_value(send_header_bytes(path).take(4)) == send_header_bytes(path).len() - 4,
        send_header_bytes(path).skip(4) == encode_utf8(path) + text(",0777"),
{
    assert(text(",0777").len() == 5) by {
        reveal_strlit(",0777");
        assert(vstd::utf8::is_ascii_chars(",0777"@));
        vstd::utf8::is_ascii_chars_encode_utf8(",0777"@);
    }
    let to = send_target(path);
    crate::wire::lemma_pow256_4();
    crate::wire::lemma_le_roundtrip(to.len(), 4);
    let h = send_header_bytes(path);
    assert(h.take(4) =~= le_bytes(to.len(), 4));
    assert(h.skip(4) =~= to);
}

/// Builds the frame that opens a `SEND` of `path`.
pub fn send_header_frame(path: &str) -> (r: Vec<u8>)
    ensures
        r@ == send_header_bytes(path@),
        encode_utf8(path@).len() + 5 <= u32::MAX ==> le_value(r@.take(4)) == r@.len() - 4 && r@.skip(4)
            == encode_utf8(path@) + text(",0777"),
{
    let mut to: Vec<u8> = Vec::new();
    to.extend_from_slice(path.as_bytes());
    to.extend_from_slice(",0777".as_bytes());
    let len: u64 = if to.len() as u64 <= 0xffff_ffff { to.len() as u64 } else { 0 };
    let mut out: Vec<u8> = Vec::new();
    push_le(&mut out, len, 4);
    out.extend_from_slice(to.as_slice());
    proof {
        if encode_utf8(path@).len() + 5 <= u32::MAX {
            lemma_send_header_length(path@);
        }
    }
    out
}

/// Builds a frame of file content: an I/O error where the chunk's length does not fit a `u32`.
pub fn data_frame(chunk: &[u8]) -> (r: Result<Vec<u8>>)
    ensures
        r matches Ok(v) ==> chunk@.len() <= u32::MAX && v@ == data_frame_bytes(chunk@),
        r matches Err(e) ==> chunk@.len() > u32::MAX && e@ == AdbErrorView::IO(IoErrorKind::Other, "out of range integral type conversion attempted"@),
{
    if chunk.len() as u64 > 0xffff_ffff {
        return Err(
            RustADBError::IOError(IoError { kind: IoErrorKind::Other, message: String::from_str("out of range integral type conversion attempted") }),
        );
    }
    let mut v: Vec<u8> = Vec::new();
    v.extend_from_slice("DATA".as_bytes());
    push_le(&mut v, chunk.len() as u64, 4);
    v.extend_from_slice(chunk);
    Ok(v)
}

/// Builds the frame that ends a `SEND`.
pub fn done_frame(secs: u64) -> (r: Vec<u8>)
    ensures
        r@ == done_frame_bytes(secs),
{
    let mut v: Vec<u8> = Vec::new();
    v.extend_from_slice("DONE".as_bytes());
    push_le(&mut v, secs, 8);
    v
}

/// Sends one chunk of file content.
pub fn send_data(transport: &mut StreamTransport, chunk: &[u8]) -> (r: Result<()>)
    ensures
        final(transport).continues(old(transport)),
        final(transport).received_since(old(transport)) == Seq::<u8>::empty(),
        !old(transport).is_connected() && chunk@.len() <= u32::MAX ==> is_not_connected(r),
        r is Ok ==> final(transport).sent_since(old(transport)) == data_frame_bytes(chunk@),
        r is Err ==> is_io_error(r) && final(transport).sent_since(old(transport)) == Seq::<u8>::empty(),
        chunk@.len() <= u32::MAX ==> final(transport).faulted_with(old(transport), r),
        chunk@.len() > u32::MAX ==> final(transport).faults() == old(transport).faults(),
{
    let frame = data_frame(chunk)?;
    transport.write_all(frame.as_slice())
}

/// The content of chunks, joined in order.
pub open spec fn content_of(chunks: Seq<Seq<u8>>) -> Seq<u8>
    decreases chunks.len(),
{
    if chunks.len() == 0 {
        seq![]
    } else {
        content_of(chunks.drop_last()) + chunks.last()
    }
}

/// The `DATA` frames of chunks, in order.
pub open spec fn frames_of(chunks: Seq<Seq<u8>>) -> Seq<u8>
    decreases chunks.len(),
{
    if chunks.len() == 0 {
        seq![]
    } else {
        frames_of(chunks.drop_last()) + data_frame_bytes(chunks.last())
    }
}

/// Cuts a file's content, as it comes in pieces of any size, into `DATA` frames: a frame
/// for every `BUFFER_SIZE` bytes, then one for what is left at the end, if anything is.
pub struct ContentFramer {
    pending: Vec<u8>,
    chunks: Ghost<Seq<Seq<u8>>>,
}

impl ContentFramer {
    /// The chunks already sent, in order.
    pub closed spec fn chunks(&self) -> Seq<Seq<u8>> {
        self.chunks@
    }

    /// The content taken but not sent yet.
    pub closed spec fn pending(&self) -> Seq<u8> {
        self.pending@
    }

    /// All the content taken so far, in order.
    pub open spec fn fed(&self) -> Seq<u8> {
        content_of(self.chunks()) + self.pending()
    }

    /// Every chunk sent is full, and less than a full chunk is pending.
    pub open spec fn wf(&self) -> bool {
        &&& self.pending().len() < BUFFER_SIZE
        &&& forall|i: int| 0 <= i < self.chunks().len() ==> (#[trigger] self.chunks()[i]).len() == BUFFER_SIZE
    }

    /// How the content taken so far is cut into frames: the chunks sent, then what is
    /// pending, where anything is.
    pub open spec fn cuts(&self) -> Seq<Seq<u8>> {
        if self.pending().len() == 0 {
            self.chunks()
        } else {
            self.chunks().push(self.pending())
        }
    }

    /// A framer that has taken nothing.
    pub fn new() -> (f: Self)
        ensures
            f.wf(),
            f.chunks() == Seq::<Seq<u8>>::empty(),
            f.pending() == Seq::<u8>::empty(),
    {
        ContentFramer { pending: Vec::new(), chunks: Ghost(Seq::empty()) }
    }

    /// Takes a piece of content, and sends a `DATA` frame for every chunk of `BUFFER_SIZE`
    /// bytes that it completes.
    pub fn feed(&mut self, transport: &mut StreamTransport, input: &[u8]) -> (r: Result<()>)
        requires
            old(self).wf(),
        ensures
            final(transport).continues(old(transport)),
            final(transport).received_since(old(transport)) == Seq::<u8>::empty(),
            final(transport).faulted_with(old(transport), r),
            r is Err ==> is_io_error(r),
            r is Err && !old(transport).is_connected() ==> is_not_connected(r),
            final(self).chunks().len() >= old(self).chunks().len(),
            final(self).chunks().take(old(self).chunks().len() as int) == old(self).chunks(),
            final(transport).sent_since(old(transport)) == frames_of(
                final(self).chunks().skip(old(self).chunks().len() as int),
            ),
            r is Ok ==> final(self).wf() && final(self).fed() == old(self).fed() + input@,
    {
        let ghost t0 = *transport;
        let ghost k = self.chunks@.len();
        let mut i: usize = 0;
        assert(self.chunks@.skip(k as int) =~= Seq::<Seq<u8>>::empty());
        assert(self.chunks@.take(k as int) =~= self.chunks@);
        assert(input@.take(0) =~= Seq::<u8>::empty());
        assert(transport.sent_since(&t0) =~= Seq::<u8>::empty());
        assert(transport.received_since(&t0) =~= Seq::<u8>::empty());
        while i < input.len()
            invariant
                self.wf(),
                i <= input.len(),
                k == old(self).chunks().len(),
                self.fed() == old(self).fed() + input@.take(i as int),
                self.chunks().len() >= k,
                self.chunks().take(k as int) == old(self).chunks(),
                t0 == *old(transport),
                transport.continues(&t0),
                transport.received_since(&t0) == Seq::<u8>::empty(),
                transport.sent_since(&t0) == frames_of(self.chunks().skip(k as int)),
                transport.faults() == t0.faults(),
            decreases input.len() - i,
        {
            let ghost before = self.fed();
            self.pending.push(input[i]);
            proof {
                assert(input@.take(i + 1) =~= input@.take(i as int).push(input@[i as int]));
                assert(self.fed() =~= before.push(input@[i as int]));
            }
            i = i + 1;
            if self.pending.len() == BUFFER_SIZE {
                let ghost t1 = *transport;
                let r = send_data(transport, self.pending.as_slice());
                proof {
                    StreamTransport::lemma_continues_trans(&t0, &t1, &*transport);
                }
                match r {
                    Ok(()) => {},
                    Err(e) => {
                        assert(transport.sent_since(&t0) =~= t1.sent_since(&t0));
                        return Err(e);
                    },
                }
                let ghost c0 = self.chunks@;
                let ghost p = self.pending@;
                proof {
                    self.chunks@ = self.chunks@.push(self.pending@);
                    assert(self.chunks@.drop_last() =~= c0);
                    assert(self.chunks@.skip(k as int) =~= c0.skip(k as int).push(p));
                    assert(self.chunks@.skip(k as int).drop_last() =~= c0.skip(k as int));
                    assert(self.chunks@.take(k as int) =~= c0.take(k as int));
                    assert forall|j: int| 0 <= j < self.chunks@.len() implies (#[trigger] self.chunks@[j]).len()
                        == BUFFER_SIZE by {
                        if j < c0.len() {
                            assert(self.chunks@[j] == c0[j]);
                        }
                    }
                }
                self.pending = Vec::new();
                assert(self.fed() =~= content_of(c0) + p);
            }
        }
        assert(input@.take(input@.len() as int) =~= input@);
        Ok(())
    }

    /// Sends what is pending as the last `DATA` frame, where anything is.
    pub fn finish(&mut self, transport: &mut StreamTransport) -> (r: Result<()>)
        requires
            old(self).wf(),
        ensures
            final(transport).continues(old(transport)),
            final(transport).received_since(old(transport)) == Seq::<u8>::empty(),
            final(transport).faulted_with(old(transport), r),
            r is Err ==> is_io_error(r) && final(transport).sent_since(old(transport)) == Seq::<u8>::empty(),
            r is Err && !old(transport).is_connected() ==> is_not_connected(r),
            old(self).pending().len() == 0 ==> r is Ok,
            r is Ok ==> final(self).chunks() == old(self).cuts() && final(self).pending() == Seq::<u8>::empty()
                && final(transport).sent_since(old(transport)) == frames_of(
                old(self).cuts().skip(old(self).chunks().len() as int),
            ),
    {
        let ghost k = self.chunks@.len();
        if self.pending.len() == 0 {
            assert(transport.sent().skip(transport.sent().len() as int) =~= Seq::<u8>::empty());
            assert(transport.received().skip(transport.received().len() as int) =~= Seq::<u8>::empty());
            assert(self.chunks@.skip(k as int) =~= Seq::<Seq<u8>>::empty());
            return Ok(());
        }
        let r = send_data(transport, self.pending.as_slice());
        if r.is_ok() {
            let ghost c0 = self.chunks@;
            let ghost p = self.pending@;
            proof {
                self.chunks@ = self.chunks@.push(self.pending@);
                assert(self.chunks@.skip(k as int) =~= seq![p]);
                assert(seq![p].drop_last() =~= Seq::<Seq<u8>>::empty());
                assert(seq![p].last() == p);
                assert(frames_of(seq![p].drop_last()) == Seq::<u8>::empty());
                assert(frames_of(seq![p]) =~= data_frame_bytes(p));
            }
            self.pending = Vec::new();
        }
        r
    }
}

/// The cuts of a framer's content join back into the content in order; each holds from
/// one to `BUFFER_SIZE` bytes, and all but the last hold `BUFFER_SIZE`; there are none
/// exactly when there is no content.
pub proof fn lemma_content_cuts(f: ContentFramer)
    requires
        f.wf(),
    ensures
        content_of(f.cuts()) == f.fed(),
        forall|i: int| 0 <= i < f.cuts().len() ==> 1 <= (#[trigger] f.cuts()[i]).len() <= BUFFER_SIZE,
        forall|i: int| 0 <= i < f.cuts().len() - 1 ==> (#[trigger] f.cuts()[i]).len() == BUFFER_SIZE,
        f.cuts().len() == 0 <==> f.fed().len() == 0,
{
    let c = f.chunks();
    let p = f.pending();
    lemma_content_len(c);
    if p.len() == 0 {
        assert(f.fed() =~= content_of(c));
    } else {
        assert(c.push(p).drop_last() =~= c);
        assert(forall|i: int| 0 <= i < c.len() ==> c.push(p)[i] == c[i]);
    }
}

/// Full chunks hold `BUFFER_SIZE` bytes each, together.
proof fn lemma_content_len(chunks: Seq<Seq<u8>>)
    requires
        forall|i: int| 0 <= i < chunks.len() ==> (#[trigger] chunks[i]).len() == BUFFER_SIZE,
    ensures
        content_of(chunks).len() == chunks.len() * BUFFER_SIZE,
    decreases chunks.len(),
{
    if chunks.len() > 0 {
        let d = chunks.drop_last();
        assert(forall|i: int| 0 <= i < d.len() ==> d[i] == chunks[i]);
        lemma_content_len(d);
        assert(chunks.last() == chunks[chunks.len() - 1]);
    }
}

/// The frames of chunks sent one run after another are the frames of all of them, in order.
pub proof fn lemma_frames_concat(a: Seq<Seq<u8>>, b: Seq<Seq<u8>>)
    ensures
        frames_of(a + b) == frames_of(a) + frames_of(b),
    decreases b.len(),
{
    if b.len() == 0 {
        assert(a + b =~= a);
        assert(frames_of(a) + Seq::<u8>::empty() =~= frames_of(a));
    } else {
        assert((a + b).drop_last() =~= a + b.drop_last());
        assert((a + b).last() == b.last());
        lemma_frames_concat(a, b.drop_last());
        assert(frames_of(a) + frames_of(b.drop_last()) + data_frame_bytes(b.last()) =~= frames_of(a) + (frames_of(
            b.drop_last(),
        ) + data_frame_bytes(b.last())));
    }
}

/// Ends a `SEND` with the modification time, in seconds since the Unix epoch, and reads
/// the server's answer. Without a time (the clock reads before the epoch), the request
/// fails and nothing is sent.
pub fn finish_send_at(transport: &mut StreamTransport, last_modified: Option<u64>) -> (r: Result<()>)
    ensures
        final(transport).continues(old(transport)),
        final(transport).faulted_with(old(transport), r),
        last_modified is None ==> (r matches Err(e) && e@ == AdbErrorView::RequestFailed(
            "SystemTime before UNIX EPOCH!"@,
        )) && final(transport).unchanged_since(old(transport)),
        !old(transport).is_connected() && last_modified is Some ==> is_not_connected(r),
        last_modified is Some && !is_io_error(r) ==> final(transport).sent_since(old(transport))
            == done_frame_bytes(last_modified->0) && sync_reply_outcome(final(transport).received_since(old(transport)))
            == Some(unit_outcome(r)),
        last_modified is Some && is_io_error(r) ==> sync_reply_outcome(final(transport).received_since(old(transport)))
            is None,
{
    let ghost t0 = *transport;
    let secs = match last_modified {
        Some(s) => s,
        None => {
            assert(transport.sent() =~= t0.sent());
            return Err(RustADBError::ADBRequestFailed(String::from_str("SystemTime before UNIX EPOCH!")));
        },
    };
    let frame = done_frame(secs);
    match transport.write_all(frame.as_slice()) {
        Ok(()) => {},
        Err(e) => {
            return Err(e);
        },
    }
    let ghost t1 = *transport;
    let st = match transport.read_exact(4) {
        Ok(st) => st,
        Err(e) => {
            proof {
                StreamTransport::lemma_continues_trans(&t0, &t1, &*transport);
            }
            return Err(e);
        },
    };
    let ghost t2 = *transport;
    proof {
        StreamTransport::lemma_continues_trans(&t0, &t1, &t2);
        assert(t2.received_since(&t0) =~= st@);
        assert(t2.sent_since(&t0) =~= frame@);
        assert(st@.take(4) =~= st@);
        assert(st@.skip(4) =~= Seq::<u8>::empty());
    }
    match parse_request_status(st.as_slice()) {
        Err(e) => Err(e),
        Ok(AdbRequestStatus::Okay) => Ok(()),
        Ok(AdbRequestStatus::Fail) => {
            let length = match transport.get_body_length() {
                Ok(n) => n,
                Err(e) => {
                    proof {
                        StreamTransport::lemma_continues_trans(&t0, &t2, &*transport);
                        assert(transport.received_since(&t0) =~= st@);
                    }
                    return Err(e);
                },
            };
            let ghost t3 = *transport;
            let body = if length > 0 {
                match transport.read_exact(length as usize) {
                    Ok(b) => b,
                    Err(e) => {
                        proof {
                            StreamTransport::lemma_continues_trans(&t0, &t2, &t3);
                            StreamTransport::lemma_continues_trans(&t0, &t3, &*transport);
                            let rr = transport.received_since(&t0);
                            let lenb = t3.received_since(&t2);
                            assert(rr =~= st@ + lenb);
                            assert(rr.take(4) =~= st@);
                            assert(rr.skip(4) =~= lenb);
                            assert(lenb.take(4) =~= lenb);
                        }
                        return Err(e);
                    },
                }
            } else {
                Vec::new()
            };
            proof {
                StreamTransport::lemma_continues_trans(&t0, &t2, &t3);
                StreamTransport::lemma_continues_trans(&t0, &t3, &*transport);
                let rr = transport.received_since(&t0);
                let lenb = t3.received_since(&t2);
                assert(rr =~= st@ + lenb + body@);
                assert(rr.take(4) =~= st@);
                assert(rr.skip(4) =~= lenb + body@);
                assert(rr.skip(4).take(4) =~= lenb);
                assert(rr.skip(4).skip(4) =~= body@);
                assert(transport.sent_since(&t0) =~= frame@);
            }
            match utf8_to_string(body.as_slice()) {
                Some(m) => Err(RustADBError::ADBRequestFailed(m)),
                None => Err(RustADBError::Utf8StringError),
            }
        },
    }
}

/// The length field of a content frame reads back as the chunk's length, and the chunk
/// follows it whole.
pub proof fn lemma_data_frame_length(chunk: Seq<u8>)
    requires
        chunk.len() <= u32::MAX,
    ensures
        data_frame_bytes(chunk).len() == 8 + chunk.len(),
        le_value(data_frame_bytes(chunk).subrange(4, 8)) == chunk.len(),
        data_frame_bytes(chunk).skip(8) == chunk,
{
    crate::wire::lemma_pow256_4();
    crate::wire::lemma_le_roundtrip(chunk.len(), 4);
    assert(text("DATA").len() == 4) by {
        reveal_strlit("DATA");
        assert(vstd::utf8::is_ascii_chars("DATA"@));
        vstd::utf8::is_ascii_chars_encode_utf8("DATA"@);
    }
    let f = data_frame_bytes(chunk);
    assert(f.subrange(4, 8) =~= le_bytes(chunk.len(), 4));
    assert(f.skip(8) =~= chunk);
}

/// `OKAY` ends a `SEND` successfully; `FAIL` with a UTF-8 message of fitting length fails
/// it with that message.
pub proof fn lemma_sync_reply(msg: Seq<u8>)
    requires
        msg.len() <= u32::MAX,
        valid_utf8(msg),
    ensures
        sync_reply_outcome(crate::wire::okay_bytes()) == Some(Ok::<Seq<u8>, AdbErrorView>(Seq::empty())),
        sync_reply_outcome(crate::wire::fail_bytes() + le_bytes(msg.len(), 4) + msg) == Some(
            Err::<Seq<u8>, AdbErrorView>(AdbErrorView::RequestFailed(decode_utf8(msg))),
        ),
{
    let ok = crate::wire::okay_bytes();
    assert(ok.take(4) =~= ok);
    assert(ok.skip(4) =~= Seq::<u8>::empty());
    crate::wire::lemma_pow256_4();
    crate::wire::lemma_le_roundtrip(msg.len(), 4);
    let r = crate::wire::fail_bytes() + le_bytes(msg.len(), 4) + msg;
    assert(r.take(4) =~= crate::wire::fail_bytes());
    assert(r.skip(4) =~= le_bytes(msg.len(), 4) + msg);
    assert(r.skip(4).take(4) =~= le_bytes(msg.len(), 4));
    assert(r.skip(4).skip(4) =~= msg);
}

} // verus!
